//! What the two engines have in common.

use crate::descend::{boundary_error, boundary_verdict, descend_verdict, MAX_INTERNAL_DEPTH};
use crate::entry::{leaf, EntryView, TreeView};
use crate::error::{IoFault, TreeError};
use crate::filter::filter_verdict;
use crate::ignoring::IgnoreView;
use crate::listing::{DirItem, FileKind, ReadDirResult};
use crate::node::{child_plan, over_limit};
use crate::ordered_model::{extended, Scene, Tally};
use crate::parallel_model::{
    apart, lemma_apart_behind, lemma_with_met_behind, never_twice, with_met, Meeting,
};
use crate::path::FsPath;
use crate::streaming::{lead_of, listed_items, placed, reserved_errors, LevelView};
use crate::streaming_model::{Halt, Output};
use crate::walk::VisitView;
use vstd::prelude::*;

verus! {

/// An entry without what its place in the output, or the number of its own entries, adds.
pub open spec fn bare(entry: EntryView) -> EntryView {
    EntryView {
        is_last: false,
        ancestors_last: Seq::empty(),
        filelimit_exceeded: None,
        ..entry
    }
}

/// Entries without what their places in the output add.
pub open spec fn bare_all(entries: Seq<EntryView>) -> Seq<EntryView> {
    entries.map_values(|entry: EntryView| bare(entry))
}

/// The entries of a tree, each before those below it.
pub open spec fn flat(tree: TreeView) -> Seq<EntryView>
    decreases tree,
{
    seq![bare(tree.entry)] + flat_all(tree.children)
}

/// The entries of several trees, one tree after the other.
pub open spec fn flat_all(trees: Seq<TreeView>) -> Seq<EntryView>
    decreases trees,
{
    if trees.len() == 0 {
        Seq::empty()
    } else {
        flat_all(trees.subrange(0, trees.len() - 1)) + flat(trees[trees.len() - 1])
    }
}

/// The entries of several trees, with one more tree behind them.
pub proof fn lemma_flat_extended(trees: Seq<TreeView>, tree: Option<TreeView>)
    ensures
        flat_all(extended(trees, tree)) == flat_all(trees) + (match tree {
            Some(tree) => flat(tree),
            None => Seq::empty(),
        }),
{
    match tree {
        Some(tree) => {
            let longer = trees.push(tree);
            assert(longer.subrange(0, longer.len() - 1) =~= trees);
        },
        None => {
            assert(flat_all(trees) + Seq::empty() =~= flat_all(trees));
        },
    }
}

/// A leaf has one entry.
pub proof fn lemma_flat_leaf(entry: EntryView)
    ensures
        flat(leaf(entry)) == seq![bare(entry)],
{
    assert(flat_all(leaf(entry).children) =~= Seq::empty());
    assert(flat(leaf(entry)) =~= seq![bare(entry)]);
}

/// Entries that are listed below a directory, and the directories among them that may be
/// descended into.
pub struct Drawing {
    pub entries: Seq<EntryView>,
    pub met: Seq<Meeting>,
}

impl Scene {
    /// What is listed below a directory, if no directory is met twice.
    pub open spec fn drawing(self, level: LevelView) -> Drawing
        decreases MAX_INTERNAL_DEPTH - level.depth, 1nat, 0nat,
    {
        let nothing = Drawing { entries: Seq::empty(), met: Seq::empty() };
        if level.depth >= MAX_INTERNAL_DEPTH || (self.config.max_depth is Some && level.depth
            > self.config.max_depth->Some_0) {
            nothing
        } else {
            let inside = level.with_rules((self.world.rules)(level.path));
            match (self.world.list)(level.path) {
                ReadDirResult::Entries(items) => self.drawing_of_all(
                    inside,
                    listed_items(self.config, inside.parent_matched, inside.ignore, items@),
                ),
                _ => nothing,
            }
        }
    }

    /// What is listed of entries of a directory.
    pub open spec fn drawing_of_all(self, level: LevelView, items: Seq<DirItem>) -> Drawing
        decreases MAX_INTERNAL_DEPTH - level.depth, 0nat, items.len(),
        when level.depth < MAX_INTERNAL_DEPTH
    {
        if items.len() == 0 {
            Drawing { entries: Seq::empty(), met: Seq::empty() }
        } else {
            let first = self.drawing_of(level, items[0]);
            let rest = self.drawing_of_all(level, items.skip(1));
            Drawing { entries: first.entries + rest.entries, met: first.met + rest.met }
        }
    }

    /// What is listed of one entry of a directory.
    pub open spec fn drawing_of(self, level: LevelView, item: DirItem) -> Drawing
        decreases MAX_INTERNAL_DEPTH - level.depth, 0nat, 0nat,
        when level.depth < MAX_INTERNAL_DEPTH
    {
        match (self.world.describe)(item.path, level.depth) {
            Err(_) => Drawing { entries: Seq::empty(), met: Seq::empty() },
            Ok(described) => {
                let entry = bare(described@);
                let meeting = Meeting {
                    key: (self.world.identity)(entry.path)@,
                    claim: true,
                    seen: false,
                };
                let below = self.drawing(level.below(item, entry.path));
                if lead_of(entry.entry_type, self.config) is No {
                    Drawing { entries: seq![entry], met: Seq::empty() }
                } else if boundary_verdict(
                    self.root_device,
                    (self.world.volume)(entry.path),
                ) is Proceed {
                    Drawing {
                        entries: seq![entry] + below.entries,
                        met: seq![meeting] + below.met,
                    }
                } else {
                    Drawing { entries: seq![entry], met: seq![meeting] }
                }
            },
        }
    }
}

/// Whether the file system says the same of an entry however it is asked: the directory
/// entry and its description agree on what is a directory. A junction may be listed as a
/// directory or as a link, as platforms do, where junctions are not shown.
pub open spec fn agrees(scene: Scene, item: DirItem) -> bool {
    forall|depth: usize|
        (#[trigger] (scene.world.describe)(item.path, depth)) is Ok ==> {
            let entry_type = (scene.world.describe)(item.path, depth)->Ok_0.entry_type;
            &&& item.kind == Some(FileKind::Dir) ==> entry_type is Directory
                || entry_type is Junction
            &&& entry_type is Directory ==> item.kind == Some(FileKind::Dir)
            &&& entry_type is Junction && scene.config.show_junctions ==> item.kind == Some(
                FileKind::Dir,
            )
        }
}

/// A file system that says the same however it is asked, and an output that takes
/// everything.
pub open spec fn is_consistent(scene: Scene) -> bool {
    &&& forall|path: FsPath, depth: usize| #[trigger]
        (scene.world.stat)(path, depth) == (scene.world.describe)(path, depth)
    &&& forall|path: FsPath, depth: usize|
        (#[trigger] (scene.world.describe)(path, depth)) is Ok ==> (scene.world.describe)(
            path,
            depth,
        )->Ok_0.path == path
    &&& forall|path: FsPath, i: int|
        (scene.world.list)(path) is Entries && 0 <= i < (scene.world.list)(
            path,
        )->Entries_0@.len() ==> agrees(scene, #[trigger] (scene.world.list)(path)->Entries_0@[i])
    &&& forall|entry: EntryView| (#[trigger] (scene.world.write)(entry)) is Ok
}

/// The options under which both engines list the same: links are not followed, streams not
/// shown, empty directories not pruned, and the number of entries is not limited.
pub open spec fn is_plain(scene: Scene) -> bool {
    &&& !scene.config.follow_symlinks
    &&& !scene.config.show_streams
    &&& !scene.config.prune
    &&& scene.config.max_entries is None
}

/// No directory lies so deep that the internal limit matters: traversal ends above it, or
/// nothing is there to descend into.
pub open spec fn is_shallow(scene: Scene) -> bool {
    ||| scene.config.max_depth is Some && scene.config.max_depth->Some_0 < MAX_INTERNAL_DEPTH
    ||| forall|path: FsPath|
        (#[trigger] (scene.world.describe)(path, (MAX_INTERNAL_DEPTH - 1) as usize)) is Ok
            ==> lead_of(
            (scene.world.describe)(path, (MAX_INTERNAL_DEPTH - 1) as usize)->Ok_0.entry_type,
            scene.config,
        ) is No
}

/// Whether the engines can be compared.
pub open spec fn is_comparable(scene: Scene) -> bool {
    is_consistent(scene) && is_plain(scene) && is_shallow(scene)
}

/// Where the entries of a visited directory stand.
pub open spec fn level_of(visit: VisitView) -> LevelView {
    LevelView {
        path: visit.path,
        depth: (visit.depth + 1) as usize,
        parent_matched: visit.parent_matched,
        ignore: visit.ignore,
    }
}

proof fn lemma_listed_first(scene: Scene, level: LevelView, items: Seq<DirItem>)
    requires
        items.len() > 0,
    ensures
        ({
            let config = scene.config;
            let rest = listed_items(config, level.parent_matched, level.ignore, items.skip(1));
            listed_items(config, level.parent_matched, level.ignore, items) == if filter_verdict(
                config,
                items[0],
                level.parent_matched,
                level.ignore,
            ) is Include {
                seq![items[0]] + rest
            } else {
                rest
            }
        }),
    decreases items.len(),
{
    let config = scene.config;
    let whole = listed_items(config, level.parent_matched, level.ignore, items);
    let rest = listed_items(config, level.parent_matched, level.ignore, items.skip(1));
    let first = if filter_verdict(config, items[0], level.parent_matched, level.ignore) is Include {
        seq![items[0]]
    } else {
        Seq::empty()
    };
    if items.len() == 1 {
        assert(items.drop_last() =~= Seq::empty());
        assert(items.skip(1) =~= Seq::empty());
        assert(listed_items(config, level.parent_matched, level.ignore, items.drop_last())
            =~= Seq::empty());
        assert(whole =~= first + rest);
    } else {
        lemma_listed_first(scene, level, items.drop_last());
        assert(items.drop_last().skip(1) =~= items.skip(1).drop_last());
        assert(items.skip(1).last() == items.last());
        assert(whole =~= first + rest);
    }
    assert(first + rest =~= if first.len() > 0 {
        seq![items[0]] + rest
    } else {
        rest
    });
}

/// An ordered traversal finds, below a directory, what is listed there.
proof fn lemma_children_drawn(
    scene: Scene,
    visit: VisitView,
    items: Seq<DirItem>,
    nodes: Seq<TreeView>,
    tally: Tally,
)
    requires
        is_comparable(scene),
        visit.depth + 1 < MAX_INTERNAL_DEPTH,
        scene.config.max_depth is Some ==> visit.depth < scene.config.max_depth->Some_0,
        forall|i: int| 0 <= i < items.len() ==> agrees(scene, #[trigger] items[i]),
        ({
            let level = level_of(visit);
            let drawing = scene.drawing_of_all(
                level,
                listed_items(scene.config, level.parent_matched, level.ignore, items),
            );
            never_twice(drawing.met) && apart(drawing.met, tally.visited)
        }),
    ensures
        ({
            let level = level_of(visit);
            let drawing = scene.drawing_of_all(
                level,
                listed_items(scene.config, level.parent_matched, level.ignore, items),
            );
            let found = scene.children(visit, items, nodes, tally);
            &&& flat_all(found.0) == flat_all(nodes) + drawing.entries
            &&& found.1.visited.subset_of(with_met(tally.visited, drawing.met))
        }),
    decreases MAX_INTERNAL_DEPTH - visit.depth, 0nat, items.len() + 1,
{
    let level = level_of(visit);
    let listed = listed_items(scene.config, level.parent_matched, level.ignore, items);
    let drawing = scene.drawing_of_all(level, listed);
    if items.len() == 0 {
        assert(flat_all(nodes) + drawing.entries =~= flat_all(nodes));
    } else {
        let item = items[0];
        let rest_items = items.skip(1);
        let rest_listed = listed_items(
            scene.config,
            level.parent_matched,
            level.ignore,
            rest_items,
        );
        let rest = scene.drawing_of_all(level, rest_listed);
        let child = scene.child(visit, item, tally);
        let more = extended(nodes, child.0);
        lemma_listed_first(scene, level, items);
        lemma_flat_extended(nodes, child.0);
        assert(agrees(scene, item));
        assert forall|i: int| 0 <= i < rest_items.len() implies agrees(
            scene,
            #[trigger] rest_items[i],
        ) by {
            assert(rest_items[i] == items[i + 1]);
        }
        if filter_verdict(scene.config, item, level.parent_matched, level.ignore) is Include {
            assert(listed.skip(1) =~= rest_listed);
            let first = scene.drawing_of(level, item);
            assert(drawing.met == first.met + rest.met);
            assert(never_twice(first.met) && apart(first.met, tally.visited)) by {
                lemma_apart_behind(first.met, rest.met, tally.visited, tally.visited);
            }
            lemma_child_drawn(scene, visit, item, tally);
            lemma_apart_behind(first.met, rest.met, tally.visited, child.1.visited);
            lemma_children_drawn(scene, visit, rest_items, more, child.1);
            let found = scene.children(visit, rest_items, more, child.1);
            lemma_with_met_behind(
                first.met,
                rest.met,
                tally.visited,
                child.1.visited,
                found.1.visited,
            );
            assert(flat_all(found.0) =~= flat_all(nodes) + drawing.entries);
        } else {
            assert(child.0 is None);
            assert(child.1.visited == tally.visited);
            assert(more == nodes);
            lemma_children_drawn(scene, visit, rest_items, nodes, child.1);
        }
    }
}

/// An ordered traversal finds, of one entry, what is listed of it.
proof fn lemma_child_drawn(scene: Scene, visit: VisitView, item: DirItem, tally: Tally)
    requires
        is_comparable(scene),
        visit.depth + 1 < MAX_INTERNAL_DEPTH,
        scene.config.max_depth is Some ==> visit.depth < scene.config.max_depth->Some_0,
        agrees(scene, item),
        filter_verdict(scene.config, item, visit.parent_matched, visit.ignore) is Include,
        never_twice(scene.drawing_of(level_of(visit), item).met),
        apart(scene.drawing_of(level_of(visit), item).met, tally.visited),
    ensures
        ({
            let drawing = scene.drawing_of(level_of(visit), item);
            let child = scene.child(visit, item, tally);
            &&& drawing.entries == (match child.0 {
                Some(tree) => flat(tree),
                None => Seq::empty(),
            })
            &&& child.1.visited.subset_of(with_met(tally.visited, drawing.met))
        }),
    decreases MAX_INTERNAL_DEPTH - visit.depth, 0nat, 0nat,
{
    let world = scene.world;
    let config = scene.config;
    let level = level_of(visit);
    let depth = level.depth;
    let drawing = scene.drawing_of(level, item);
    let child = scene.child(visit, item, tally);
    if let Ok(described) = (world.describe)(item.path, depth) {
        let entry = described@;
        lemma_flat_leaf(entry);
        assert(described.path == item.path);
        if item.kind == Some(FileKind::Dir) {
            let inner = visit.child(item);
            assert(child == scene.node(inner, tally));
            assert((world.stat)(item.path, depth) == (world.describe)(item.path, depth));
            if !(lead_of(entry.entry_type, config) is No) {
                let verdict = boundary_verdict(scene.root_device, (world.volume)(item.path));
                let key = (world.identity)(item.path)@;
                let meeting = Meeting { key, claim: true, seen: false };
                let outer = level.below(item, item.path);
                let below = scene.drawing(outer);
                assert(outer == level_of(inner));
                assert(drawing.met[0] == meeting);
                if verdict is Proceed {
                    assert(drawing.met == seq![meeting] + below.met);
                    if config.max_depth is Some && depth >= config.max_depth->Some_0 {
                        assert(child.0 == Some(leaf(entry)));
                        assert(below.entries =~= Seq::empty());
                        assert(drawing.entries =~= seq![bare(entry)]);
                    } else {
                        assert(depth + 1 < MAX_INTERNAL_DEPTH);
                        lemma_node_drawn(scene, inner, entry, tally);
                    }
                } else {
                    assert(child.0 == Some(leaf(entry)));
                }
            } else {
                assert(child.0 == Some(leaf(entry)));
            }
        } else {
            assert(child_plan(config, item, visit.parent_matched, visit.ignore) is File);
            assert(lead_of(entry.entry_type, config) is No);
            assert(child.0->Some_0.children =~= Seq::empty());
            assert(child.0->Some_0 == leaf(entry));
        }
    } else {
        assert((world.stat)(item.path, depth) == (world.describe)(item.path, depth));
    }
}

/// An ordered traversal finds, of a directory that it enters, its entry and what is listed
/// below it.
proof fn lemma_node_drawn(scene: Scene, visit: VisitView, entry: EntryView, tally: Tally)
    requires
        is_comparable(scene),
        visit.depth + 1 < MAX_INTERNAL_DEPTH,
        scene.config.max_depth is Some ==> visit.depth < scene.config.max_depth->Some_0,
        (scene.world.stat)(visit.path, visit.depth) is Ok,
        entry == (scene.world.stat)(visit.path, visit.depth)->Ok_0@,
        descend_verdict(
            entry.entry_type,
            visit.path,
            visit.depth,
            scene.config,
            scene.root_device,
            (scene.world.volume)(visit.path),
        ) is Proceed,
        ({
            let meeting = Meeting {
                key: (scene.world.identity)(visit.path)@,
                claim: true,
                seen: false,
            };
            let met = seq![meeting] + scene.drawing(level_of(visit)).met;
            never_twice(met) && apart(met, tally.visited)
        }),
    ensures
        ({
            let meeting = Meeting {
                key: (scene.world.identity)(visit.path)@,
                claim: true,
                seen: false,
            };
            let below = scene.drawing(level_of(visit));
            let found = scene.node(visit, tally);
            &&& found.0 is Some
            &&& flat(found.0->Some_0) == seq![bare(entry)] + below.entries
            &&& found.1.visited.subset_of(with_met(tally.visited, seq![meeting] + below.met))
        }),
    decreases MAX_INTERNAL_DEPTH - visit.depth, 1nat, 0nat,
{
    let world = scene.world;
    let path = visit.path;
    let key = (world.identity)(path)@;
    let meeting = Meeting { key, claim: true, seen: false };
    let below = scene.drawing(level_of(visit));
    let met = seq![meeting] + below.met;
    let found = scene.node(visit, tally);
    let entered = tally.with_visited(key);
    assert(met[0] == meeting);
    assert(!tally.visited.contains(key));
    assert(entered.visited.subset_of(with_met(tally.visited, seq![meeting]))) by {
        assert(seq![meeting][0].key == key);
    }
    match (world.list)(path) {
        ReadDirResult::Entries(items) => {
            let inside = visit.with_rules((world.rules)(path));
            assert(level_of(inside) == level_of(visit).with_rules((world.rules)(path)));
            lemma_apart_behind(seq![meeting], below.met, tally.visited, entered.visited);
            assert forall|i: int| 0 <= i < items@.len() implies agrees(
                scene,
                #[trigger] items@[i],
            ) by {
                assert(agrees(scene, (world.list)(path)->Entries_0@[i]));
            }
            lemma_children_drawn(scene, inside, items@, Seq::empty(), entered);
            lemma_with_met_behind(
                seq![meeting],
                below.met,
                tally.visited,
                entered.visited,
                found.1.visited,
            );
            let nodes = scene.children(inside, items@, Seq::empty(), entered).0;
            assert(found.0 == Some(TreeView { entry, children: nodes }));
            assert(flat_all(Seq::<TreeView>::empty()) + below.entries =~= below.entries);
        },
        ReadDirResult::FilelimitExceeded(total) => {
            let marked = over_limit(entry, total);
            lemma_flat_leaf(marked);
            assert(below.met =~= Seq::empty());
            assert(met =~= seq![meeting]);
            assert(bare(marked) == bare(entry));
            assert(seq![bare(entry)] + below.entries =~= seq![bare(entry)]);
        },
        ReadDirResult::ReadError(_) => {
            lemma_flat_leaf(entry);
            assert(below.met =~= Seq::empty());
            assert(met =~= seq![meeting]);
            assert(seq![bare(entry)] + below.entries =~= seq![bare(entry)]);
        },
    }
}

/// What a streaming traversal has written, and the directories that it came to, once it is
/// done with something that is listed.
pub open spec fn is_drawn(before: Output, drawing: Drawing, after: Output) -> bool {
    &&& after.halt is No
    &&& bare_all(after.written) == bare_all(before.written) + drawing.entries
    &&& after.visited.subset_of(with_met(before.visited, drawing.met))
}

proof fn lemma_emitted(scene: Scene, entry: EntryView, out: Output)
    requires
        is_comparable(scene),
        out.halt is No,
    ensures
        ({
            let after = scene.emit(entry, out);
            &&& after.halt is No
            &&& after.visited == out.visited
            &&& bare_all(after.written) == bare_all(out.written) + seq![bare(entry)]
        }),
{
    assert((scene.world.write)(entry) is Ok);
    assert(bare_all(out.written.push(entry)) =~= bare_all(out.written) + seq![bare(entry)]);
}

/// A streaming traversal writes, below a directory, what is listed there.
proof fn lemma_level_drawn(scene: Scene, level: LevelView, ancestors: Seq<bool>, out: Output)
    requires
        is_comparable(scene),
        out.halt is No,
        never_twice(scene.drawing(level).met),
        apart(scene.drawing(level).met, out.visited),
    ensures
        is_drawn(out, scene.drawing(level), scene.level(level, ancestors, out)),
    decreases MAX_INTERNAL_DEPTH - level.depth, 1nat, 0nat,
{
    let config = scene.config;
    let drawing = scene.drawing(level);
    let after = scene.level(level, ancestors, out);
    if level.depth >= MAX_INTERNAL_DEPTH || (config.max_depth is Some && level.depth
        > config.max_depth->Some_0) {
        assert(bare_all(out.written) + drawing.entries =~= bare_all(out.written));
    } else {
        let inside = level.with_rules((scene.world.rules)(level.path));
        if let ReadDirResult::Entries(items) = (scene.world.list)(level.path) {
            let reported = Output {
                errors: out.errors + reserved_errors(
                    config,
                    inside.parent_matched,
                    inside.ignore,
                    items@,
                ),
                ..out
            };
            let listed = listed_items(config, inside.parent_matched, inside.ignore, items@);
            lemma_entries_drawn(scene, inside, listed, ancestors, reported);
        } else {
            assert(bare_all(out.written) + drawing.entries =~= bare_all(out.written));
        }
    }
}

proof fn lemma_entries_drawn(
    scene: Scene,
    level: LevelView,
    items: Seq<DirItem>,
    ancestors: Seq<bool>,
    out: Output,
)
    requires
        is_comparable(scene),
        level.depth < MAX_INTERNAL_DEPTH,
        out.halt is No,
        never_twice(scene.drawing_of_all(level, items).met),
        apart(scene.drawing_of_all(level, items).met, out.visited),
    ensures
        is_drawn(
            out,
            scene.drawing_of_all(level, items),
            scene.entries(level, items, ancestors, out),
        ),
    decreases MAX_INTERNAL_DEPTH - level.depth, 0nat, items.len() + 1,
{
    let drawing = scene.drawing_of_all(level, items);
    if items.len() == 0 {
        assert(bare_all(out.written) + drawing.entries =~= bare_all(out.written));
    } else {
        let first = scene.drawing_of(level, items[0]);
        let rest = scene.drawing_of_all(level, items.skip(1));
        let is_last = items.len() == 1;
        let after = scene.entry(level, items[0], is_last, ancestors, out);
        assert(never_twice(first.met) && apart(first.met, out.visited)) by {
            lemma_apart_behind(first.met, rest.met, out.visited, out.visited);
        }
        lemma_entry_drawn(scene, level, items[0], is_last, ancestors, out);
        lemma_apart_behind(first.met, rest.met, out.visited, after.visited);
        lemma_entries_drawn(scene, level, items.skip(1), ancestors, after);
        let done = scene.entries(level, items.skip(1), ancestors, after);
        lemma_with_met_behind(
            first.met,
            rest.met,
            out.visited,
            after.visited,
            done.visited,
        );
        assert(bare_all(done.written) =~= bare_all(out.written) + drawing.entries);
    }
}

proof fn lemma_entry_drawn(
    scene: Scene,
    level: LevelView,
    item: DirItem,
    is_last: bool,
    ancestors: Seq<bool>,
    out: Output,
)
    requires
        is_comparable(scene),
        level.depth < MAX_INTERNAL_DEPTH,
        out.halt is No,
        never_twice(scene.drawing_of(level, item).met),
        apart(scene.drawing_of(level, item).met, out.visited),
    ensures
        is_drawn(
            out,
            scene.drawing_of(level, item),
            scene.entry(level, item, is_last, ancestors, out),
        ),
    decreases MAX_INTERNAL_DEPTH - level.depth, 0nat, 0nat,
{
    let world = scene.world;
    let drawing = scene.drawing_of(level, item);
    match (world.describe)(item.path, level.depth) {
        Err(_) => {
            assert(bare_all(out.written) + drawing.entries =~= bare_all(out.written));
        },
        Ok(described) => {
            let entry = placed(described@, is_last, ancestors);
            let key = (world.identity)(entry.path)@;
            let meeting = Meeting { key, claim: true, seen: false };
            let seen = out.with_visited(key);
            let unknown = TreeError::Io(entry.path, IoFault::UnknownVolume);
            assert(bare(entry) == bare(described@));
            assert(entry.entry_type == described@.entry_type);
            lemma_emitted(scene, entry, out);
            lemma_emitted(scene, entry, seen);
            lemma_emitted(scene, entry, seen.with_error(unknown));
            if !(lead_of(entry.entry_type, scene.config) is No) {
                assert(!(lead_of(entry.entry_type, scene.config) is Link));
                assert(drawing.met[0] == meeting);
                assert(!out.visited.contains(key));
                assert(seen.visited.subset_of(with_met(out.visited, seq![meeting]))) by {
                    assert(seq![meeting][0].key == key);
                }
                if boundary_verdict(scene.root_device, (world.volume)(entry.path)) is Proceed {
                    let outer = level.below(item, entry.path);
                    let below = scene.drawing(outer);
                    let after = scene.emit(entry, seen);
                    lemma_apart_behind(seq![meeting], below.met, out.visited, after.visited);
                    lemma_level_drawn(scene, outer, ancestors.push(is_last), after);
                    let done = scene.level(outer, ancestors.push(is_last), after);
                    lemma_with_met_behind(
                        seq![meeting],
                        below.met,
                        out.visited,
                        after.visited,
                        done.visited,
                    );
                    assert(bare_all(done.written) =~= bare_all(out.written) + drawing.entries);
                }
            }
        },
    }
}

/// Both engines list the same entries in the same order, where links are not followed,
/// streams not shown, empty directories not pruned and the number of entries not limited: the
/// entries that a streaming traversal writes are those of the tree that an ordered traversal
/// finds, provided that no directory is met twice and that the file system says the same
/// however it is asked. The streaming traversal succeeds, and is not cut short.
///
/// A root that is a junction is left out where junctions are not shown: an ordered traversal
/// then lists the root alone.
pub proof fn both_engines_agree(scene: Scene, root: FsPath, ignore: IgnoreView)
    requires
        is_comparable(scene),
        (scene.world.stat)(root, 0) is Ok,
        (scene.world.stat)(root, 0)->Ok_0.entry_type is Junction ==> scene.config.show_junctions,
        boundary_verdict(scene.root_device, (scene.world.volume)(root)) is Proceed,
        ({
            let level = LevelView { path: root, depth: 1, parent_matched: false, ignore };
            let meeting = Meeting {
                key: (scene.world.identity)(root)@,
                claim: true,
                seen: false,
            };
            never_twice(seq![meeting] + scene.drawing(level).met)
        }),
    ensures
        scene.traversal(root, ignore).0 is Some,
        flat(scene.traversal(root, ignore).0->Some_0) == bare_all(
            scene.streamed(root, ignore).written,
        ),
        scene.streamed(root, ignore).halt is No,
{
    let world = scene.world;
    let visit = VisitView { path: root, depth: 0, included: false, parent_matched: false, ignore };
    let level = LevelView { path: root, depth: 1, parent_matched: false, ignore };
    let key = (world.identity)(root)@;
    let meeting = Meeting { key, claim: true, seen: false };
    let below = scene.drawing(level);
    let entry = (world.stat)(root, 0)->Ok_0@;
    let error = boundary_error(scene.config, root, scene.root_device);
    let nothing = Tally { errors: Seq::empty(), visited: Set::empty() };
    let begun = match error {
        Some(error) => nothing.with_error(error),
        None => nothing,
    };
    assert(level == level_of(visit));
    assert((world.write)(entry) is Ok);
    let written = Output {
        errors: Seq::empty(),
        visited: Set::empty().insert(key),
        written: seq![entry],
        count: 0,
        halt: Halt::No,
    };
    let started = match error {
        Some(error) => written.with_error(error),
        None => written,
    };
    assert(scene.streamed(root, ignore) == scene.level(level, Seq::empty(), started));
    assert(started.visited.subset_of(with_met(Set::empty(), seq![meeting]))) by {
        assert(seq![meeting][0].key == key);
    }
    lemma_apart_behind(seq![meeting], below.met, Set::empty(), started.visited);
    lemma_level_drawn(scene, level, Seq::empty(), started);
    assert(bare_all(seq![entry]) =~= seq![bare(entry)]);
    if scene.config.max_depth is Some && scene.config.max_depth->Some_0 == 0 {
        lemma_flat_leaf(entry);
        assert(scene.traversal(root, ignore).0 == Some(leaf(entry)));
        assert(seq![bare(entry)] + below.entries =~= seq![bare(entry)]);
    } else {
        lemma_node_drawn(scene, visit, entry, begun);
    }
}

} // verus!
