//! The connectors of streamed output: which entries are marked as the last of their siblings,
//! and how the flags of the entries above repeat in those below.
//!
//! In the output, an entry lies so many levels below the root's entries as it has flags for
//! entries above it. Siblings are entries at one level with only deeper ones between them.

use crate::descend::{boundary_error, MAX_INTERNAL_DEPTH};
use crate::entry::{as_recursive, stream_entry, EntryView, StreamInfo};
use crate::error::{IoFault, TreeError};
use crate::ignoring::IgnoreView;
use crate::listing::{DirItem, ReadDirResult};
use crate::ordered_model::Scene;
use crate::path::FsPath;
use crate::streaming::{listed_items, placed, reserved_errors, LevelView};
use crate::streaming_model::{Halt, Output};
use vstd::prelude::*;

verus! {

/// Whether an entry, or the entry above it at a level, is marked as the last of its siblings.
pub open spec fn flag_at(entry: EntryView, level: int) -> bool {
    if level < entry.ancestors_last.len() {
        entry.ancestors_last[level]
    } else {
        entry.is_last
    }
}

/// Whether an entry can come directly behind another. It lies at most one level deeper: then
/// its flags are those of the other with the other's own behind them. Otherwise it shares the
/// flags above its level, and the entry before it at its level is not marked as the last; the
/// deeper ones are, if nothing was left out there.
pub open spec fn follows(before: EntryView, after: EntryView, complete: bool) -> bool {
    let deep = before.ancestors_last.len();
    let level = after.ancestors_last.len();
    &&& level <= deep + 1
    &&& level == deep + 1 ==> after.ancestors_last == before.ancestors_last.push(before.is_last)
    &&& level <= deep ==> {
        &&& after.ancestors_last == before.ancestors_last.take(level as int)
        &&& !flag_at(before, level as int)
        &&& complete ==> forall|k: int| level < k <= deep ==> #[trigger] flag_at(before, k)
    }
}

/// Whether entries, the root first, can come one behind the other.
pub open spec fn is_drawn(written: Seq<EntryView>, complete: bool) -> bool {
    &&& written.len() > 1 ==> written[1].ancestors_last.len() == 0
    &&& forall|i: int|
        1 <= i < written.len() - 1 ==> follows(#[trigger] written[i], written[i + 1], complete)
}

/// Whether nothing was written yet inside the innermost entry.
spec fn is_fresh(written: Seq<EntryView>, ancestors: Seq<bool>) -> bool {
    ||| written.len() <= 1 && ancestors.len() == 0
    ||| written.len() > 1 && ancestors == written.last().ancestors_last.push(
        written.last().is_last,
    )
}

/// Whether the last entry at a level was written, with whatever lies below it.
spec fn stands(
    written: Seq<EntryView>,
    ancestors: Seq<bool>,
    flag: bool,
    complete: bool,
) -> bool {
    let last = written.last();
    let level = ancestors.len() as int;
    &&& written.len() > 1
    &&& level <= last.ancestors_last.len()
    &&& last.ancestors_last.take(level) == ancestors
    &&& flag_at(last, level) == flag
    &&& complete ==> forall|k: int|
        level < k <= last.ancestors_last.len() ==> #[trigger] flag_at(last, k)
}

/// Whether a further entry can be written at a level.
spec fn is_ready(written: Seq<EntryView>, ancestors: Seq<bool>, complete: bool) -> bool {
    is_fresh(written, ancestors) || stands(written, ancestors, false, complete)
}

/// Whether the entries of a level are all written.
spec fn is_closed(written: Seq<EntryView>, ancestors: Seq<bool>, complete: bool) -> bool {
    ||| is_fresh(written, ancestors)
    ||| stands(written, ancestors, true, complete)
    ||| !complete && stands(written, ancestors, false, complete)
}

/// Whether an entry of a level is written, or left out because it could not be described.
spec fn is_past(
    written: Seq<EntryView>,
    ancestors: Seq<bool>,
    flag: bool,
    complete: bool,
) -> bool {
    ||| stands(written, ancestors, flag, complete)
    ||| !complete && is_ready(written, ancestors, complete)
}

proof fn lemma_drawn_on(
    written: Seq<EntryView>,
    entry: EntryView,
    ancestors: Seq<bool>,
    complete: bool,
)
    requires
        written.len() > 0,
        is_drawn(written, complete),
        is_ready(written, ancestors, complete),
        entry.ancestors_last == ancestors,
    ensures
        is_drawn(written.push(entry), complete),
        is_fresh(written.push(entry), ancestors.push(entry.is_last)),
        stands(written.push(entry), ancestors, entry.is_last, complete),
{
    let more = written.push(entry);
    assert(more.last() == entry);
    assert(ancestors.take(ancestors.len() as int) =~= ancestors);
    assert forall|i: int| 1 <= i < more.len() - 1 implies follows(
        #[trigger] more[i],
        more[i + 1],
        complete,
    ) by {
        if i < written.len() - 1 {
            assert(more[i] == written[i] && more[i + 1] == written[i + 1]);
        } else {
            assert(more[i] == written.last());
        }
    }
}

/// Whatever lies below an entry leaves it standing at its own level.
proof fn lemma_closed_above(
    written: Seq<EntryView>,
    ancestors: Seq<bool>,
    flag: bool,
    complete: bool,
)
    requires
        written.len() > 1,
        is_closed(written, ancestors.push(flag), complete),
    ensures
        stands(written, ancestors, flag, complete),
{
    let last = written.last();
    let inside = ancestors.push(flag);
    let level = ancestors.len() as int;
    if is_fresh(written, inside) {
        assert(inside.drop_last() =~= ancestors);
        assert(last.ancestors_last.push(last.is_last).drop_last() =~= last.ancestors_last);
        assert(inside.last() == flag);
        assert(last.ancestors_last.push(last.is_last).last() == last.is_last);
        assert(last.ancestors_last.take(level) =~= ancestors);
    } else {
        assert(last.ancestors_last.take(level + 1)[level] == inside[level]);
        assert(last.ancestors_last.take(level) =~= inside.take(level));
        assert(inside.take(level) =~= ancestors);
        assert(complete ==> flag_at(last, level + 1));
    }
}

proof fn lemma_streams_drawn(
    scene: Scene,
    path: FsPath,
    depth: usize,
    streams: Seq<StreamInfo>,
    ancestors: Seq<bool>,
    out: Output,
    complete: bool,
)
    requires
        out.written.len() > 0,
        is_drawn(out.written, complete),
        out.halt is No && streams.len() > 0 ==> is_ready(out.written, ancestors, complete),
        out.halt is No && streams.len() == 0 ==> is_closed(out.written, ancestors, complete),
    ensures
        ({
            let after = scene.stream_entries(path, depth, streams, ancestors, out);
            &&& after.written.len() >= out.written.len()
            &&& is_drawn(after.written, complete)
            &&& after.halt is No ==> is_closed(after.written, ancestors, complete)
        }),
    decreases streams.len(),
{
    if streams.len() > 0 && out.halt is No && !scene.is_full(out) {
        let entry = placed(
            stream_entry(path, streams[0], (depth + 1) as usize),
            streams.len() == 1,
            ancestors,
        );
        let after = scene.emit(entry, out);
        lemma_drawn_on(out.written, entry, ancestors, complete);
        lemma_streams_drawn(scene, path, depth, streams.skip(1), ancestors, after, complete);
    }
}

proof fn lemma_leaf_drawn(
    scene: Scene,
    level: LevelView,
    entry: EntryView,
    ancestors: Seq<bool>,
    out: Output,
    complete: bool,
)
    requires
        out.written.len() > 0,
        out.halt is No,
        is_drawn(out.written, complete),
        is_ready(out.written, ancestors, complete),
        entry.ancestors_last == ancestors,
    ensures
        ({
            let after = scene.leaf_entry(level, entry, ancestors, out);
            &&& after.written.len() >= out.written.len()
            &&& is_drawn(after.written, complete)
            &&& after.halt is No ==> stands(after.written, ancestors, entry.is_last, complete)
        }),
{
    let after = scene.emit(entry, out);
    lemma_drawn_on(out.written, entry, ancestors, complete);
    if after.halt is No && scene.config.show_streams {
        let inside = ancestors.push(entry.is_last);
        let streams = (scene.world.streams)(entry.path)@;
        lemma_streams_drawn(scene, entry.path, level.depth, streams, inside, after, complete);
        let done = scene.stream_entries(entry.path, level.depth, streams, inside, after);
        if done.halt is No {
            lemma_closed_above(done.written, ancestors, entry.is_last, complete);
        }
    }
}

proof fn lemma_level_drawn(
    scene: Scene,
    level: LevelView,
    ancestors: Seq<bool>,
    out: Output,
    complete: bool,
)
    requires
        complete ==> everything_is_described(scene),
        out.written.len() > 0,
        out.halt is No,
        is_drawn(out.written, complete),
        is_fresh(out.written, ancestors),
    ensures
        ({
            let after = scene.level(level, ancestors, out);
            &&& after.written.len() >= out.written.len()
            &&& is_drawn(after.written, complete)
            &&& after.halt is No ==> is_closed(after.written, ancestors, complete)
        }),
    decreases MAX_INTERNAL_DEPTH - level.depth, 1nat, 0nat,
{
    let config = scene.config;
    if level.depth < MAX_INTERNAL_DEPTH && !(config.max_depth is Some && level.depth
        > config.max_depth->Some_0) {
        let inside = level.with_rules((scene.world.rules)(level.path));
        if let ReadDirResult::Entries(items) = (scene.world.list)(level.path) {
            let listed = listed_items(config, inside.parent_matched, inside.ignore, items@);
            let reported = Output {
                errors: out.errors + reserved_errors(
                    config,
                    inside.parent_matched,
                    inside.ignore,
                    items@,
                ),
                ..out
            };
            lemma_entries_drawn(scene, inside, listed, ancestors, reported, complete);
        }
    }
}

proof fn lemma_entries_drawn(
    scene: Scene,
    level: LevelView,
    items: Seq<DirItem>,
    ancestors: Seq<bool>,
    out: Output,
    complete: bool,
)
    requires
        complete ==> everything_is_described(scene),
        level.depth < MAX_INTERNAL_DEPTH,
        out.written.len() > 0,
        is_drawn(out.written, complete),
        out.halt is No && items.len() > 0 ==> is_ready(out.written, ancestors, complete),
        out.halt is No && items.len() == 0 ==> is_closed(out.written, ancestors, complete),
    ensures
        ({
            let after = scene.entries(level, items, ancestors, out);
            &&& after.written.len() >= out.written.len()
            &&& is_drawn(after.written, complete)
            &&& after.halt is No ==> is_closed(after.written, ancestors, complete)
        }),
    decreases MAX_INTERNAL_DEPTH - level.depth, 0nat, items.len() + 1,
{
    if items.len() > 0 && out.halt is No && !scene.is_full(out) {
        let is_last = items.len() == 1;
        let after = scene.entry(level, items[0], is_last, ancestors, out);
        lemma_entry_drawn(scene, level, items[0], is_last, ancestors, out, complete);
        lemma_entries_drawn(scene, level, items.skip(1), ancestors, after, complete);
    }
}

proof fn lemma_entry_drawn(
    scene: Scene,
    level: LevelView,
    item: DirItem,
    is_last: bool,
    ancestors: Seq<bool>,
    out: Output,
    complete: bool,
)
    requires
        complete ==> everything_is_described(scene),
        level.depth < MAX_INTERNAL_DEPTH,
        out.written.len() > 0,
        out.halt is No,
        is_drawn(out.written, complete),
        is_ready(out.written, ancestors, complete),
    ensures
        ({
            let after = scene.entry(level, item, is_last, ancestors, out);
            &&& after.written.len() >= out.written.len()
            &&& is_drawn(after.written, complete)
            &&& after.halt is No ==> is_past(after.written, ancestors, is_last, complete)
        }),
    decreases MAX_INTERNAL_DEPTH - level.depth, 0nat, 0nat,
{
    let world = scene.world;
    if let Ok(described) = (world.describe)(item.path, level.depth) {
        let entry = placed(described@, is_last, ancestors);
        let seen = out.with_visited((world.identity)(entry.path)@);
        let unknown = seen.with_error(
            TreeError::Io(entry.path, IoFault::UnknownVolume),
        );
        let marked = as_recursive(entry);
        lemma_leaf_drawn(scene, level, entry, ancestors, out, complete);
        lemma_leaf_drawn(scene, level, marked, ancestors, out, complete);
        lemma_leaf_drawn(scene, level, entry, ancestors, seen, complete);
        lemma_leaf_drawn(scene, level, entry, ancestors, unknown, complete);
        let after = scene.emit(entry, seen);
        lemma_drawn_on(out.written, entry, ancestors, complete);
        if after.halt is No {
            let below = level.below(item, entry.path);
            let inside = ancestors.push(is_last);
            lemma_level_drawn(scene, below, inside, after, complete);
            let done = scene.level(below, inside, after);
            if done.halt is No {
                lemma_closed_above(done.written, ancestors, is_last, complete);
            }
        }
    }
}

/// Whether every entry can be described.
pub open spec fn everything_is_described(scene: Scene) -> bool {
    forall|path: FsPath, depth: usize| (#[trigger] (scene.world.describe)(path, depth)) is Ok
}

/// Streamed output is drawn right: each entry can come behind the one before it. Where every
/// entry can be described and the output is not cut short, the last entry is marked as the
/// last of its siblings, and so are all entries above it.
pub proof fn streamed_output_is_drawn_right(scene: Scene, root: FsPath, ignore: IgnoreView)
    ensures
        ({
            let out = scene.streamed(root, ignore);
            let last = out.written.last();
            &&& is_drawn(out.written, everything_is_described(scene))
            &&& everything_is_described(scene) && out.halt is No && out.written.len() > 1
                ==> forall|k: int|
                0 <= k <= last.ancestors_last.len() ==> #[trigger] flag_at(last, k)
        }),
{
    let complete = everything_is_described(scene);
    let out = scene.streamed(root, ignore);
    if let Ok(entry) = (scene.world.stat)(root, 0) {
        if (scene.world.write)(entry@) is Ok {
            let begun = Output {
                errors: Seq::empty(),
                visited: Set::empty().insert((scene.world.identity)(root)@),
                written: seq![entry@],
                count: 0,
                halt: Halt::No,
            };
            let started = match boundary_error(
                scene.config,
                root,
                scene.root_device,
            ) {
                Some(error) => begun.with_error(error),
                None => begun,
            };
            let level = LevelView { path: root, depth: 1, parent_matched: false, ignore };
            assert(out == scene.level(level, Seq::empty(), started));
            lemma_level_drawn(scene, level, Seq::empty(), started, complete);
            if complete && out.halt is No && out.written.len() > 1 {
                let last = out.written.last();
                let none = Seq::<bool>::empty();
                assert(!is_fresh(out.written, none)) by {
                    assert(last.ancestors_last.push(last.is_last).len() > 0);
                }
                assert forall|k: int| 0 <= k <= last.ancestors_last.len() implies
                    #[trigger] flag_at(last, k) by {}
            }
        }
    }
}

/// Whether an entry of the output is the one above another at a level: it lies at that level,
/// and only deeper ones come between them.
pub open spec fn is_above(written: Seq<EntryView>, index: int, level: int, above: int) -> bool {
    &&& 1 <= above < index
    &&& written[above].ancestors_last.len() == level
    &&& forall|i: int|
        above < i <= index ==> (#[trigger] written[i]).ancestors_last.len() > level
}

proof fn lemma_above(written: Seq<EntryView>, complete: bool, index: int, level: int) -> (above: int)
    requires
        is_drawn(written, complete),
        1 <= index < written.len(),
        0 <= level < written[index].ancestors_last.len(),
    ensures
        is_above(written, index, level, above),
        written[above].is_last == written[index].ancestors_last[level],
    decreases index,
{
    let entry = written[index];
    let before = written[index - 1];
    assert(index > 1);
    assert(follows(written[index - 1], written[index - 1 + 1], complete));
    if level == before.ancestors_last.len() {
        index - 1
    } else {
        assert(entry.ancestors_last[level] == before.ancestors_last[level]);
        lemma_above(written, complete, index - 1, level)
    }
}

/// The flags of an entry for the levels above it are those of the entries above it: for every
/// level there is one, and it is marked as the last of its siblings exactly if the flag says
/// so.
pub proof fn flags_repeat_the_entries_above(
    scene: Scene,
    root: FsPath,
    ignore: IgnoreView,
    index: int,
    level: int,
)
    requires
        1 <= index < scene.streamed(root, ignore).written.len(),
        0 <= level < scene.streamed(root, ignore).written[index].ancestors_last.len(),
    ensures
        ({
            let written = scene.streamed(root, ignore).written;
            exists|above: int| #[trigger]
                is_above(written, index, level, above) && written[above].is_last
                    == written[index].ancestors_last[level]
        }),
{
    let written = scene.streamed(root, ignore).written;
    streamed_output_is_drawn_right(scene, root, ignore);
    let above = lemma_above(written, everything_is_described(scene), index, level);
    assert(is_above(written, index, level, above));
}

/// Whether an entry is the next sibling of another: it lies at the same level, and only deeper
/// ones come between them.
pub open spec fn is_next_sibling(written: Seq<EntryView>, index: int, next: int) -> bool {
    &&& 1 <= index < next < written.len()
    &&& written[next].ancestors_last.len() == written[index].ancestors_last.len()
    &&& forall|i: int|
        index < i < next ==> (#[trigger] written[i]).ancestors_last.len()
            > written[index].ancestors_last.len()
}

/// The flag of an entry stays in force for whatever is written below it.
proof fn lemma_flag_stays(written: Seq<EntryView>, complete: bool, index: int, later: int)
    requires
        is_drawn(written, complete),
        1 <= index <= later < written.len(),
        forall|i: int|
            index < i <= later ==> (#[trigger] written[i]).ancestors_last.len()
                > written[index].ancestors_last.len(),
    ensures
        flag_at(written[later], written[index].ancestors_last.len() as int)
            == written[index].is_last,
    decreases later - index,
{
    if index < later {
        let level = written[index].ancestors_last.len() as int;
        lemma_flag_stays(written, complete, index, later - 1);
        assert(follows(written[later - 1], written[later - 1 + 1], complete));
        assert(written[later].ancestors_last.len() > level);
    }
}

/// Behind an entry that is marked as the last of its siblings none of them is written.
pub proof fn no_sibling_follows_the_last(
    scene: Scene,
    root: FsPath,
    ignore: IgnoreView,
    index: int,
    next: int,
)
    requires
        is_next_sibling(scene.streamed(root, ignore).written, index, next),
    ensures
        !scene.streamed(root, ignore).written[index].is_last,
{
    let written = scene.streamed(root, ignore).written;
    let complete = everything_is_described(scene);
    streamed_output_is_drawn_right(scene, root, ignore);
    lemma_flag_stays(written, complete, index, next - 1);
    assert(follows(written[next - 1], written[next - 1 + 1], complete));
}

proof fn lemma_sibling_follows(written: Seq<EntryView>, index: int, from: int) -> (next: int)
    requires
        is_drawn(written, true),
        forall|k: int|
            0 <= k <= written.last().ancestors_last.len() ==> #[trigger] flag_at(
                written.last(),
                k,
            ),
        1 <= index <= from < written.len(),
        !written[index].is_last,
        forall|i: int|
            index < i <= from ==> (#[trigger] written[i]).ancestors_last.len()
                > written[index].ancestors_last.len(),
    ensures
        is_next_sibling(written, index, next),
    decreases written.len() - from,
{
    let level = written[index].ancestors_last.len() as int;
    lemma_flag_stays(written, true, index, from);
    if from == written.len() - 1 {
        assert(flag_at(written.last(), level));
        from
    } else {
        let next = written[from + 1];
        assert(follows(written[from], written[from + 1], true));
        if next.ancestors_last.len() > level {
            lemma_sibling_follows(written, index, from + 1)
        } else {
            if next.ancestors_last.len() < level {
                assert(flag_at(written[from], level));
            }
            from + 1
        }
    }
}

/// Behind an entry that is not marked as the last of its siblings one of them is written, at
/// every depth, where every entry can be described and the output is not cut short. So an
/// entry is marked exactly if no sibling follows.
pub proof fn a_sibling_follows_all_others(
    scene: Scene,
    root: FsPath,
    ignore: IgnoreView,
    index: int,
)
    requires
        everything_is_described(scene),
        scene.streamed(root, ignore).halt is No,
        1 <= index < scene.streamed(root, ignore).written.len(),
    ensures
        ({
            let written = scene.streamed(root, ignore).written;
            written[index].is_last <==> !(exists|next: int| #[trigger]
                is_next_sibling(written, index, next))
        }),
{
    let written = scene.streamed(root, ignore).written;
    streamed_output_is_drawn_right(scene, root, ignore);
    if !written[index].is_last {
        let next = lemma_sibling_follows(written, index, index);
        assert(is_next_sibling(written, index, next));
    } else if exists|next: int| #[trigger] is_next_sibling(written, index, next) {
        let next = choose|next: int| #[trigger] is_next_sibling(written, index, next);
        no_sibling_follows_the_last(scene, root, ignore, index, next);
    }
}

} // verus!
