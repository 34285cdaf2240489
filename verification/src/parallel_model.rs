//! What the tasks of a parallel traversal find, whichever worker runs them, and the proof
//! that it is what an ordered walk finds.

use crate::descend::{boundary_error, descend_verdict, DescendCheck, MAX_INTERNAL_DEPTH};
use crate::entry::{as_recursive, file_tree, leaf, EntryView, TreeView};
use crate::error::{io_error, TreeError};
use crate::ignoring::IgnoreView;
use crate::listing::{DirItem, ReadDirResult};
use crate::node::{child_plan, finished, over_limit, ChildPlan};
use crate::ordered_model::{extended, Scene, Tally};
use crate::path::FsPath;
use crate::protocol::World;
use crate::task::{errors_of, nodes_of, root_task, OutcomeView, TaskStageView, TaskView};
use crate::visited::Key;
use crate::walk::VisitView;
use vstd::prelude::*;

verus! {

/// What several tasks and their forks find.
pub struct Brood {
    pub nodes: Seq<TreeView>,
    pub errors: Seq<TreeError>,
}

/// What a task hands over.
pub open spec fn plain(tree: Option<TreeView>, errors: Seq<TreeError>) -> OutcomeView {
    OutcomeView { tree, errors }
}

impl Scene {
    /// What the task for a directory finds.
    pub open spec fn alone(self, visit: VisitView) -> OutcomeView
        decreases MAX_INTERNAL_DEPTH - visit.depth, 2nat, 0nat,
    {
        let path = visit.path;
        if visit.depth >= MAX_INTERNAL_DEPTH {
            plain(None, seq![TreeError::MaxDepthExceeded(path)])
        } else {
            match (self.world.stat)(path, visit.depth) {
                Err(error) => plain(None, seq![error]),
                Ok(entry) => match descend_verdict(
                    entry.entry_type,
                    path,
                    visit.depth,
                    self.config,
                    self.root_device,
                    (self.world.volume)(path),
                ) {
                    DescendCheck::Leaf => plain(Some(leaf(entry@)), Seq::empty()),
                    DescendCheck::LeafWithError(error) => plain(Some(leaf(entry@)), seq![error]),
                    DescendCheck::Proceed => if (self.world.claim)(path) {
                        plain(Some(leaf(as_recursive(entry@))), Seq::empty())
                    } else {
                        self.within(visit, entry@)
                    },
                },
            }
        }
    }

    /// What the task for a directory finds once it enters it.
    pub open spec fn within(self, visit: VisitView, entry: EntryView) -> OutcomeView
        decreases MAX_INTERNAL_DEPTH - visit.depth, 1nat, 0nat,
        when visit.depth < MAX_INTERNAL_DEPTH
    {
        let path = visit.path;
        match (self.world.list)(path) {
            ReadDirResult::ReadError(fault) => plain(
                Some(leaf(entry)),
                seq![io_error(path, fault)],
            ),
            ReadDirResult::FilelimitExceeded(total) => plain(
                Some(leaf(over_limit(entry, total))),
                Seq::empty(),
            ),
            ReadDirResult::Entries(items) => {
                let brood = self.brood(visit.with_rules((self.world.rules)(path)), items@);
                plain(
                    finished(self.config, visit.included, visit.depth, entry, brood.nodes),
                    brood.errors,
                )
            },
        }
    }

    /// What the tasks for the entries of a directory find.
    pub open spec fn brood(self, visit: VisitView, items: Seq<DirItem>) -> Brood
        decreases MAX_INTERNAL_DEPTH - visit.depth, 0nat, items.len(),
        when visit.depth < MAX_INTERNAL_DEPTH
    {
        if items.len() == 0 {
            Brood { nodes: Seq::empty(), errors: Seq::empty() }
        } else {
            let before = self.brood(visit, items.drop_last());
            let last = self.offspring(visit, items.last());
            Brood {
                nodes: extended(before.nodes, last.tree),
                errors: before.errors + last.errors,
            }
        }
    }

    /// What the task for an entry of a directory finds.
    pub open spec fn offspring(self, visit: VisitView, item: DirItem) -> OutcomeView
        decreases MAX_INTERNAL_DEPTH - visit.depth, 0nat, 0nat,
        when visit.depth < MAX_INTERNAL_DEPTH
    {
        let depth = (visit.depth + 1) as usize;
        match child_plan(self.config, item, visit.parent_matched, visit.ignore) {
            ChildPlan::Skip => plain(None, Seq::empty()),
            ChildPlan::Reserved => plain(None, seq![TreeError::ReservedName(item.path)]),
            ChildPlan::CheckLink => if (self.world.seen)(item.path) {
                let looped = seq![TreeError::SymlinkLoop(item.path)];
                match (self.world.describe)(item.path, depth) {
                    Ok(entry) => plain(Some(leaf(as_recursive(entry@))), looped),
                    Err(error) => plain(None, looped.push(error)),
                }
            } else {
                self.alone(visit.child(item))
            },
            ChildPlan::Descend => self.alone(visit.child(item)),
            ChildPlan::File => match (self.world.describe)(item.path, depth) {
                Ok(entry) => plain(
                    Some(
                        file_tree(
                            entry@,
                            item.path,
                            depth,
                            self.config.show_streams,
                            (self.world.streams)(item.path)@,
                        ),
                    ),
                    Seq::empty(),
                ),
                Err(error) => plain(None, seq![error]),
            },
        }
    }
}

/// What a task finds when the driver runs it and its forks to the end, in at most so many
/// nested rounds; nothing if that takes more.
pub open spec fn carried_out(world: World, task: TaskView, rounds: nat) -> Option<OutcomeView>
    decreases rounds, 0nat,
{
    if rounds == 0 {
        None
    } else {
        let left = (rounds - 1) as nat;
        match task.asks() {
            Some(ask) => carried_out(world, task.answered(world.answer(ask)), left),
            None => match task.stage {
                TaskStageView::Fork(visit, _, items) => {
                    let outcomes = forks_carried_out(world, task, visit, items, left);
                    if forall|i: int| 0 <= i < items.len() ==> (#[trigger] outcomes[i]) is Some {
                        carried_out(
                            world,
                            task.joined(
                                outcomes.map_values(
                                    |outcome: Option<OutcomeView>| outcome->Some_0,
                                ),
                            ),
                            left,
                        )
                    } else {
                        None
                    }
                },
                TaskStageView::Done(node) => Some(
                    OutcomeView { tree: node, errors: task.errors },
                ),
                _ => None,
            },
        }
    }
}

/// What the forks of a task find.
pub open spec fn forks_carried_out(
    world: World,
    task: TaskView,
    visit: VisitView,
    items: Seq<DirItem>,
    rounds: nat,
) -> Seq<Option<OutcomeView>>
    decreases rounds, 1nat,
{
    Seq::new(items.len(), |i: int| carried_out(world, task.fork(visit, items[i]), rounds))
}

/// How many nested rounds the task for a directory takes at most.
pub open spec fn rounds_below(depth: usize) -> nat {
    if depth >= MAX_INTERNAL_DEPTH {
        4
    } else {
        (10 * (MAX_INTERNAL_DEPTH - depth) + 4) as nat
    }
}

/// Whether a task is about a scene.
pub open spec fn belongs(scene: Scene, task: TaskView) -> bool {
    task.config == scene.config && task.root_device == scene.root_device
}

/// What a task hands over, behind errors already met.
pub open spec fn handed_over(errors: Seq<TreeError>, found: OutcomeView) -> OutcomeView {
    OutcomeView { tree: found.tree, errors: errors + found.errors }
}

/// A task that is done hands over its node.
proof fn lemma_done(world: World, task: TaskView, rounds: nat)
    requires
        task.stage is Done,
        rounds > 0,
    ensures
        carried_out(world, task, rounds) == Some(
            OutcomeView { tree: task.stage->Done_0, errors: task.errors },
        ),
{
}

/// The task for a directory hands over what there is to find.
proof fn lemma_alone(scene: Scene, task: TaskView, visit: VisitView, rounds: nat)
    requires
        belongs(scene, task),
        rounds >= rounds_below(visit.depth),
    ensures
        carried_out(scene.world, task.enter(visit), rounds) == Some(
            handed_over(task.errors, scene.alone(visit)),
        ),
    decreases MAX_INTERNAL_DEPTH - visit.depth, 2nat, 0nat,
{
    let world = scene.world;
    let found = scene.alone(visit);
    let entered = task.enter(visit);
    if visit.depth >= MAX_INTERNAL_DEPTH {
        lemma_done(world, entered, rounds);
        assert(task.errors.push(TreeError::MaxDepthExceeded(visit.path)) =~= task.errors
            + found.errors);
    } else {
        let first = (rounds - 1) as nat;
        match (world.stat)(visit.path, visit.depth) {
            Err(error) => {
                let failed = task.with_error(error).at(TaskStageView::Done(None));
                assert(entered.answered(world.answer(entered.asks()->Some_0)) == failed);
                lemma_done(world, failed, first);
                assert(task.errors.push(error) =~= task.errors + found.errors);
            },
            Ok(entry) => {
                let described = entered.answered(world.answer(entered.asks()->Some_0));
                assert(described == task.on_stat(visit, Ok(entry)));
                let decided = task.on_volume(visit, entry@, (world.volume)(visit.path));
                if described.stage is Volume {
                    assert(described.answered(world.answer(described.asks()->Some_0)) == decided);
                    lemma_decided(scene, task, visit, entry@, (rounds - 2) as nat);
                    assert(carried_out(world, described, first) == carried_out(
                        world,
                        decided,
                        (rounds - 2) as nat,
                    ));
                } else {
                    assert(described == decided);
                    lemma_decided(scene, task, visit, entry@, first);
                }
                assert(carried_out(world, entered, rounds) == carried_out(
                    world,
                    described,
                    first,
                ));
            },
        }
    }
}

/// The part of `lemma_alone` behind the decision whether to descend.
proof fn lemma_decided(
    scene: Scene,
    task: TaskView,
    visit: VisitView,
    entry: EntryView,
    rounds: nat,
)
    requires
        belongs(scene, task),
        visit.depth < MAX_INTERNAL_DEPTH,
        rounds + 2 >= rounds_below(visit.depth),
        (scene.world.stat)(visit.path, visit.depth) is Ok,
        (scene.world.stat)(visit.path, visit.depth)->Ok_0@ == entry,
    ensures
        carried_out(
            scene.world,
            task.on_volume(visit, entry, (scene.world.volume)(visit.path)),
            rounds,
        ) == Some(handed_over(task.errors, scene.alone(visit))),
    decreases MAX_INTERNAL_DEPTH - visit.depth, 1nat, 1nat,
{
    let world = scene.world;
    let found = scene.alone(visit);
    let decided = task.on_volume(visit, entry, (world.volume)(visit.path));
    match descend_verdict(
        entry.entry_type,
        visit.path,
        visit.depth,
        scene.config,
        scene.root_device,
        (world.volume)(visit.path),
    ) {
        DescendCheck::Leaf => {
            lemma_done(world, decided, rounds);
            assert(task.errors =~= task.errors + found.errors);
        },
        DescendCheck::LeafWithError(error) => {
            lemma_done(world, decided, rounds);
            assert(task.errors.push(error) =~= task.errors + found.errors);
        },
        DescendCheck::Proceed => {
            let claimed = task.on_claim(visit, entry, (world.claim)(visit.path));
            assert(decided.answered(world.answer(decided.asks()->Some_0)) == claimed);
            if (world.claim)(visit.path) {
                lemma_done(world, claimed, (rounds - 1) as nat);
                assert(task.errors =~= task.errors + found.errors);
            } else {
                lemma_within(scene, task, visit, entry, (rounds - 1) as nat);
            }
        },
    }
}

/// The task for a directory that it enters hands over what there is to find.
proof fn lemma_within(
    scene: Scene,
    task: TaskView,
    visit: VisitView,
    entry: EntryView,
    rounds: nat,
)
    requires
        belongs(scene, task),
        visit.depth < MAX_INTERNAL_DEPTH,
        rounds + 3 >= rounds_below(visit.depth),
    ensures
        carried_out(scene.world, task.at(TaskStageView::Permit(visit, entry)), rounds) == Some(
            handed_over(task.errors, scene.within(visit, entry)),
        ),
    decreases MAX_INTERNAL_DEPTH - visit.depth, 1nat, 0nat,
{
    let world = scene.world;
    let found = scene.within(visit, entry);
    let waiting = task.at(TaskStageView::Permit(visit, entry));
    let at_list = task.at(TaskStageView::List(visit, entry));
    let at_read = task.at(TaskStageView::Read(visit, entry, (world.list)(visit.path)));
    let listed = task.on_list(visit, entry, (world.list)(visit.path));
    assert(waiting.answered(world.answer(waiting.asks()->Some_0)) == at_list);
    assert(at_list.answered(world.answer(at_list.asks()->Some_0)) == at_read);
    assert(at_read.answered(world.answer(at_read.asks()->Some_0)) == listed);
    let first = (rounds - 3) as nat;
    assert(carried_out(world, at_read, (rounds - 2) as nat) == carried_out(world, listed, first));
    assert(carried_out(world, at_list, (rounds - 1) as nat) == carried_out(world, listed, first));
    assert(carried_out(world, waiting, rounds) == carried_out(world, listed, first));
    match (world.list)(visit.path) {
        ReadDirResult::ReadError(fault) => {
            lemma_done(world, listed, first);
            assert(task.errors.push(io_error(visit.path, fault)) =~= task.errors + found.errors);
        },
        ReadDirResult::FilelimitExceeded(_) => {
            lemma_done(world, listed, first);
            assert(task.errors =~= task.errors + found.errors);
        },
        ReadDirResult::Entries(items) => {
            let inside = visit.with_rules((world.rules)(visit.path));
            let forked = task.at(TaskStageView::Fork(inside, entry, items@));
            if visit.ignore.enabled {
                assert(listed.answered(world.answer(listed.asks()->Some_0)) == forked);
                lemma_forked(scene, task, inside, entry, items@, (rounds - 4) as nat);
            } else {
                assert(inside == visit);
                assert(listed == forked);
                lemma_forked(scene, task, inside, entry, items@, first);
            }
        },
    }
}

/// A task that forks hands over what its forks find.
proof fn lemma_forked(
    scene: Scene,
    task: TaskView,
    visit: VisitView,
    entry: EntryView,
    items: Seq<DirItem>,
    rounds: nat,
)
    requires
        belongs(scene, task),
        visit.depth < MAX_INTERNAL_DEPTH,
        rounds + 7 >= rounds_below(visit.depth),
    ensures
        ({
            let brood = scene.brood(visit, items);
            carried_out(scene.world, task.at(TaskStageView::Fork(visit, entry, items)), rounds)
                == Some(
                OutcomeView {
                    tree: finished(scene.config, visit.included, visit.depth, entry, brood.nodes),
                    errors: task.errors + brood.errors,
                },
            )
        }),
    decreases MAX_INTERNAL_DEPTH - visit.depth, 0nat, 1nat,
{
    let world = scene.world;
    let forked = task.at(TaskStageView::Fork(visit, entry, items));
    let left = (rounds - 1) as nat;
    let outcomes = forks_carried_out(world, forked, visit, items, left);
    let results = outcomes.map_values(|outcome: Option<OutcomeView>| outcome->Some_0);
    assert forall|i: int| 0 <= i < items.len() implies (#[trigger] outcomes[i]) is Some
        && results[i] == handed_over(Seq::empty(), scene.offspring(visit, items[i])) by {
        lemma_offspring(scene, forked, visit, items[i], left);
    }
    lemma_gathered(scene, visit, items, results);
    lemma_done(world, forked.joined(results), left);
}

/// What the forks of a task found, put together.
pub proof fn lemma_gathered(
    scene: Scene,
    visit: VisitView,
    items: Seq<DirItem>,
    results: Seq<OutcomeView>,
)
    requires
        visit.depth < MAX_INTERNAL_DEPTH,
        results.len() == items.len(),
        forall|i: int|
            0 <= i < items.len() ==> (#[trigger] results[i]) == handed_over(
                Seq::empty(),
                scene.offspring(visit, items[i]),
            ),
    ensures
        nodes_of(results) == scene.brood(visit, items).nodes,
        errors_of(results) == scene.brood(visit, items).errors,
    decreases items.len(),
{
    if items.len() > 0 {
        lemma_gathered(scene, visit, items.drop_last(), results.drop_last());
        let last = scene.offspring(visit, items.last());
        assert(results.last() == handed_over(Seq::empty(), last));
        assert(Seq::<TreeError>::empty() + last.errors =~= last.errors);
    }
}

/// The task for an entry of a directory hands over what there is to find.
proof fn lemma_offspring(
    scene: Scene,
    task: TaskView,
    visit: VisitView,
    item: DirItem,
    rounds: nat,
)
    requires
        belongs(scene, task),
        visit.depth < MAX_INTERNAL_DEPTH,
        rounds + 8 >= rounds_below(visit.depth),
    ensures
        carried_out(scene.world, task.fork(visit, item), rounds) == Some(
            handed_over(Seq::empty(), scene.offspring(visit, item)),
        ),
    decreases MAX_INTERNAL_DEPTH - visit.depth, 0nat, 0nat,
{
    let world = scene.world;
    let found = scene.offspring(visit, item);
    let none = Seq::<TreeError>::empty();
    let forked = task.fork(visit, item);
    let fresh = TaskView { errors: none, stage: TaskStageView::Done(None), ..task };
    let depth = (visit.depth + 1) as usize;
    let child = visit.child(item);
    let first = (rounds - 1) as nat;
    let second = (rounds - 2) as nat;
    assert(none + found.errors =~= found.errors);
    match child_plan(scene.config, item, visit.parent_matched, visit.ignore) {
        ChildPlan::Skip => {
            lemma_done(world, forked, rounds);
        },
        ChildPlan::Reserved => {
            lemma_done(world, forked, rounds);
            assert(forked.errors =~= found.errors);
        },
        ChildPlan::CheckLink => {
            let checked = fresh.on_link_seen(child, (world.seen)(item.path));
            assert(forked.answered(world.answer(forked.asks()->Some_0)) == checked);
            if (world.seen)(item.path) {
                let described = checked.on_link_entry((world.describe)(item.path, depth));
                assert(checked.answered(world.answer(checked.asks()->Some_0)) == described);
                lemma_done(world, described, second);
                assert(described.errors =~= found.errors);
                assert(carried_out(world, checked, first) == carried_out(world, described, second));
            } else {
                lemma_alone(scene, fresh, child, first);
                assert(none + scene.alone(child).errors =~= scene.alone(child).errors);
                assert(checked == fresh.enter(child));
                assert(found == scene.alone(child));
            }
        },
        ChildPlan::Descend => {
            lemma_alone(scene, fresh, child, rounds);
        },
        ChildPlan::File => {
            let described = fresh.on_file_entry(
                item.path,
                depth,
                (world.describe)(item.path, depth),
            );
            assert(forked.answered(world.answer(forked.asks()->Some_0)) == described);
            if described.stage is FileStreams {
                let listed = described.answered(world.answer(described.asks()->Some_0));
                lemma_done(world, listed, second);
            } else {
                lemma_done(world, described, first);
            }
            assert(described.errors =~= found.errors);
        },
    }
}

/// A parallel traversal comes to an end, and what it then hands over is what its tasks find.
pub proof fn tasks_find_the_traversal(scene: Scene, root: FsPath, ignore: IgnoreView)
    ensures
        carried_out(
            scene.world,
            root_task(scene.config, root, scene.root_device, ignore),
            rounds_below(0),
        ) == Some(
            handed_over(
                root_task(scene.config, root, scene.root_device, ignore).errors,
                scene.alone(
                    VisitView {
                        path: root,
                        depth: 0,
                        included: false,
                        parent_matched: false,
                        ignore,
                    },
                ),
            ),
        ),
{
    let start = root_task(scene.config, root, scene.root_device, ignore);
    let visit = VisitView { path: root, depth: 0, included: false, parent_matched: false, ignore };
    assert(start == start.enter(visit));
    lemma_alone(scene, start, visit, rounds_below(0));
}

/// A question whether a directory was entered before, and its answer. A question that comes
/// with a claim notes that the directory is entered now.
pub struct Meeting {
    pub key: Key,
    pub claim: bool,
    pub seen: bool,
}

impl Scene {
    /// The questions that the task for a directory and its forks ask, besides those about
    /// the directories that lie above it.
    pub open spec fn questions_besides(self, visit: VisitView, above: Set<Key>) -> Seq<Meeting>
        decreases MAX_INTERNAL_DEPTH - visit.depth, 1nat, 0nat,
    {
        let path = visit.path;
        let key = (self.world.identity)(path)@;
        let seen = (self.world.claim)(path);
        if visit.depth >= MAX_INTERNAL_DEPTH || !self.claims(visit) || above.contains(key) {
            Seq::empty()
        } else if seen {
            seq![Meeting { key, claim: true, seen }]
        } else {
            match (self.world.list)(path) {
                ReadDirResult::Entries(items) => seq![Meeting { key, claim: true, seen }]
                    + self.questions_among(
                    visit.with_rules((self.world.rules)(path)),
                    items@,
                    above.insert(key),
                ),
                _ => seq![Meeting { key, claim: true, seen }],
            }
        }
    }

    /// The same of the tasks for the entries of a directory.
    pub open spec fn questions_among(
        self,
        visit: VisitView,
        items: Seq<DirItem>,
        above: Set<Key>,
    ) -> Seq<Meeting>
        decreases MAX_INTERNAL_DEPTH - visit.depth, 0nat, items.len(),
        when visit.depth < MAX_INTERNAL_DEPTH
    {
        if items.len() == 0 {
            Seq::empty()
        } else {
            self.questions_at(visit, items[0], above) + self.questions_among(
                visit,
                items.skip(1),
                above,
            )
        }
    }

    /// The same of the task for an entry of a directory. A link and the directory that it
    /// leads to are one question.
    pub open spec fn questions_at(
        self,
        visit: VisitView,
        item: DirItem,
        above: Set<Key>,
    ) -> Seq<Meeting>
        decreases MAX_INTERNAL_DEPTH - visit.depth, 0nat, 0nat,
        when visit.depth < MAX_INTERNAL_DEPTH
    {
        let key = (self.world.identity)(item.path)@;
        let seen = (self.world.seen)(item.path);
        match child_plan(self.config, item, visit.parent_matched, visit.ignore) {
            ChildPlan::CheckLink => if above.contains(key) {
                Seq::empty()
            } else if seen || !self.claims(visit.child(item)) {
                seq![Meeting { key, claim: false, seen }]
            } else {
                self.questions_besides(visit.child(item), above)
            },
            ChildPlan::Descend => self.questions_besides(visit.child(item), above),
            _ => Seq::empty(),
        }
    }

    /// Whether the task for a directory comes to claim it.
    pub open spec fn claims(self, visit: VisitView) -> bool {
        let described = (self.world.stat)(visit.path, visit.depth);
        &&& visit.depth < MAX_INTERNAL_DEPTH
        &&& described is Ok
        &&& descend_verdict(
            described->Ok_0.entry_type,
            visit.path,
            visit.depth,
            self.config,
            self.root_device,
            (self.world.volume)(visit.path),
        ) is Proceed
    }

    /// Whether every task that comes back to a directory above it is told that the directory
    /// was entered before. The task above claimed it before it forked.
    pub open spec fn loops_are_told(self, visit: VisitView, above: Set<Key>) -> bool
        decreases MAX_INTERNAL_DEPTH - visit.depth, 1nat,
    {
        let path = visit.path;
        let key = (self.world.identity)(path)@;
        if visit.depth >= MAX_INTERNAL_DEPTH || !self.claims(visit) {
            true
        } else if above.contains(key) || (self.world.claim)(path) {
            (self.world.claim)(path)
        } else {
            match (self.world.list)(path) {
                ReadDirResult::Entries(items) => forall|i: int|
                    0 <= i < items@.len() ==> self.loops_are_told_at(
                        visit.with_rules((self.world.rules)(path)),
                        #[trigger] items@[i],
                        above.insert(key),
                    ),
                _ => true,
            }
        }
    }

    /// The same of the task for an entry of a directory.
    pub open spec fn loops_are_told_at(
        self,
        visit: VisitView,
        item: DirItem,
        above: Set<Key>,
    ) -> bool
        decreases MAX_INTERNAL_DEPTH - visit.depth, 0nat,
        when visit.depth < MAX_INTERNAL_DEPTH
    {
        let key = (self.world.identity)(item.path)@;
        let seen = (self.world.seen)(item.path);
        match child_plan(self.config, item, visit.parent_matched, visit.ignore) {
            ChildPlan::CheckLink => if above.contains(key) || seen {
                seen
            } else {
                self.loops_are_told(visit.child(item), above)
            },
            ChildPlan::Descend => self.loops_are_told(visit.child(item), above),
            _ => true,
        }
    }
}

/// No two questions are about the same directory.
pub open spec fn never_twice(met: Seq<Meeting>) -> bool {
    forall|i: int, j: int|
        0 <= i < j < met.len() ==> (#[trigger] met[i]).key != (#[trigger] met[j]).key
}

/// Whoever is told that a directory was entered before is told so because of a claim that
/// somebody else made.
pub open spec fn answers_fit(met: Seq<Meeting>) -> bool {
    forall|i: int|
        0 <= i < met.len() && (#[trigger] met[i]).seen ==> exists|j: int|
            0 <= j < met.len() && j != i && (#[trigger] met[j]).claim && met[j].key == met[i].key
}

/// Nobody is told that a directory was entered before.
pub open spec fn nothing_seen(met: Seq<Meeting>) -> bool {
    forall|i: int| 0 <= i < met.len() ==> !(#[trigger] met[i]).seen
}

/// No question is about one of the given directories.
pub open spec fn apart(met: Seq<Meeting>, visited: Set<Key>) -> bool {
    forall|i: int| 0 <= i < met.len() ==> !visited.contains((#[trigger] met[i]).key)
}

/// The directories that the questions are about, besides those given.
pub open spec fn with_met(visited: Set<Key>, met: Seq<Meeting>) -> Set<Key> {
    Set::new(
        |key: Key|
            visited.contains(key) || exists|i: int|
                0 <= i < met.len() && (#[trigger] met[i]).key == key,
    )
}

/// The questions of two stretches, one behind the other.
pub proof fn lemma_apart_behind(
    front: Seq<Meeting>,
    back: Seq<Meeting>,
    before: Set<Key>,
    between: Set<Key>,
)
    requires
        never_twice(front + back),
        apart(front + back, before),
        between.subset_of(with_met(before, front)),
    ensures
        never_twice(front),
        never_twice(back),
        apart(front, before),
        apart(back, between),
{
    let met = front + back;
    assert forall|i: int, j: int| 0 <= i < j < front.len() implies (#[trigger] front[i]).key != (
    #[trigger] front[j]).key by {
        assert(met[i] == front[i] && met[j] == front[j]);
    }
    assert forall|i: int, j: int| 0 <= i < j < back.len() implies (#[trigger] back[i]).key != (
    #[trigger] back[j]).key by {
        assert(met[front.len() + i] == back[i] && met[front.len() + j] == back[j]);
    }
    assert forall|i: int| 0 <= i < front.len() implies !before.contains(
        (#[trigger] front[i]).key,
    ) by {
        assert(met[i] == front[i]);
    }
    assert forall|j: int| 0 <= j < back.len() implies !between.contains(
        (#[trigger] back[j]).key,
    ) by {
        assert(met[front.len() + j] == back[j]);
        if between.contains(back[j].key) {
            assert(with_met(before, front).contains(back[j].key));
            let i = choose|i: int|
                0 <= i < front.len() && (#[trigger] front[i]).key == back[j].key;
            assert(met[i] == front[i]);
        }
    }
}

/// What two stretches are about together.
pub proof fn lemma_with_met_behind(
    front: Seq<Meeting>,
    back: Seq<Meeting>,
    before: Set<Key>,
    between: Set<Key>,
    after: Set<Key>,
)
    requires
        between.subset_of(with_met(before, front)),
        after.subset_of(with_met(between, back)),
    ensures
        after.subset_of(with_met(before, front + back)),
{
    let met = front + back;
    assert forall|key: Key| after.contains(key) implies with_met(before, met).contains(key) by {
        assert(with_met(between, back).contains(key));
        if between.contains(key) {
            assert(with_met(before, front).contains(key));
            if !before.contains(key) {
                let i = choose|i: int| 0 <= i < front.len() && (#[trigger] front[i]).key == key;
                assert(met[i] == front[i]);
            }
        } else {
            let j = choose|j: int| 0 <= j < back.len() && (#[trigger] back[j]).key == key;
            assert(met[front.len() + j] == back[j]);
        }
    }
}

proof fn lemma_nothing_seen_behind(front: Seq<Meeting>, back: Seq<Meeting>)
    requires
        nothing_seen(front + back),
    ensures
        nothing_seen(front),
        nothing_seen(back),
{
    let met = front + back;
    assert forall|i: int| 0 <= i < front.len() implies !(#[trigger] front[i]).seen by {
        assert(met[i] == front[i]);
    }
    assert forall|j: int| 0 <= j < back.len() implies !(#[trigger] back[j]).seen by {
        assert(met[front.len() + j] == back[j]);
    }
}

/// What the first of several tasks finds comes first.
proof fn lemma_brood_first(scene: Scene, visit: VisitView, items: Seq<DirItem>)
    requires
        visit.depth < MAX_INTERNAL_DEPTH,
        items.len() > 0,
    ensures
        ({
            let first = scene.offspring(visit, items[0]);
            let rest = scene.brood(visit, items.skip(1));
            scene.brood(visit, items) == (Brood {
                nodes: extended(Seq::empty(), first.tree) + rest.nodes,
                errors: first.errors + rest.errors,
            })
        }),
    decreases items.len(),
{
    let first = scene.offspring(visit, items[0]);
    let rest = scene.brood(visit, items.skip(1));
    let whole = scene.brood(visit, items);
    if items.len() == 1 {
        assert(items.drop_last() =~= Seq::empty());
        assert(scene.brood(visit, items.drop_last()).nodes =~= Seq::empty());
        assert(items.last() == items[0]);
        assert(items.skip(1) =~= Seq::empty());
        assert(whole.nodes =~= extended(Seq::empty(), first.tree) + rest.nodes);
        assert(whole.errors =~= first.errors + rest.errors);
    } else {
        lemma_brood_first(scene, visit, items.drop_last());
        assert(items.drop_last().skip(1) =~= items.skip(1).drop_last());
        assert(items.skip(1).last() == items.last());
        assert(items.drop_last()[0] == items[0]);
        let middle = scene.brood(visit, items.skip(1).drop_last());
        let last = scene.offspring(visit, items.last());
        assert(rest.nodes == extended(middle.nodes, last.tree));
        assert(whole.nodes =~= extended(Seq::empty(), first.tree) + rest.nodes);
        assert(whole.errors =~= first.errors + rest.errors);
    }
}

/// What an ordered walk has met behind a directory, when the task for the directory finds
/// the same.
pub open spec fn behind(tally: Tally, errors: Seq<TreeError>, met: Seq<Meeting>, after: Tally) -> bool {
    &&& after.errors == tally.errors + errors
    &&& tally.visited.subset_of(after.visited)
    &&& after.visited.subset_of(with_met(tally.visited, met))
}

/// Whether an ordered walk and the tasks agree on what was entered before: the walk has
/// entered the directories above, and nobody meets another one that it has entered.
pub open spec fn agreeing(met: Seq<Meeting>, above: Set<Key>, tally: Tally) -> bool {
    &&& never_twice(met)
    &&& nothing_seen(met)
    &&& apart(met, tally.visited)
    &&& above.subset_of(tally.visited)
}

/// Where no directory is met twice except inside itself, an ordered walk finds the node that
/// the task for the directory finds.
proof fn lemma_same_node(scene: Scene, visit: VisitView, above: Set<Key>, tally: Tally)
    requires
        scene.loops_are_told(visit, above),
        agreeing(scene.questions_besides(visit, above), above, tally),
    ensures
        scene.node(visit, tally).0 == scene.alone(visit).tree,
        behind(
            tally,
            scene.alone(visit).errors,
            scene.questions_besides(visit, above),
            scene.node(visit, tally).1,
        ),
    decreases MAX_INTERNAL_DEPTH - visit.depth, 1nat, 0nat,
{
    let world = scene.world;
    let found = scene.alone(visit);
    let met = scene.questions_besides(visit, above);
    let after = scene.node(visit, tally).1;
    let path = visit.path;
    let key = (world.identity)(path)@;
    if scene.claims(visit) && !above.contains(key) {
        let entry = (world.stat)(path, visit.depth)->Ok_0@;
        let meeting = Meeting { key, claim: true, seen: (world.claim)(path) };
        assert(met[0] == meeting);
        assert(!met[0].seen);
        let entered = tally.with_visited(key);
        assert(entered.visited.subset_of(with_met(tally.visited, seq![meeting]))) by {
            assert(seq![meeting][0].key == key);
        }
        match (world.list)(path) {
            ReadDirResult::Entries(items) => {
                let inside = visit.with_rules((world.rules)(path));
                let brood = scene.brood(inside, items@);
                let below = scene.questions_among(inside, items@, above.insert(key));
                assert(met == seq![meeting] + below);
                lemma_apart_behind(seq![meeting], below, tally.visited, entered.visited);
                lemma_nothing_seen_behind(seq![meeting], below);
                lemma_same_children(
                    scene,
                    inside,
                    items@,
                    Seq::empty(),
                    above.insert(key),
                    entered,
                );
                assert(Seq::<TreeView>::empty() + brood.nodes =~= brood.nodes);
                lemma_with_met_behind(
                    seq![meeting],
                    below,
                    tally.visited,
                    entered.visited,
                    after.visited,
                );
            },
            _ => {
                assert(after.errors =~= tally.errors + found.errors);
            },
        }
    } else {
        assert(after.errors =~= tally.errors + found.errors);
    }
}

/// The same of the entries of a directory.
proof fn lemma_same_children(
    scene: Scene,
    visit: VisitView,
    items: Seq<DirItem>,
    nodes: Seq<TreeView>,
    above: Set<Key>,
    tally: Tally,
)
    requires
        visit.depth < MAX_INTERNAL_DEPTH,
        forall|i: int|
            0 <= i < items.len() ==> scene.loops_are_told_at(visit, #[trigger] items[i], above),
        agreeing(scene.questions_among(visit, items, above), above, tally),
    ensures
        scene.children(visit, items, nodes, tally).0 == nodes + scene.brood(visit, items).nodes,
        behind(
            tally,
            scene.brood(visit, items).errors,
            scene.questions_among(visit, items, above),
            scene.children(visit, items, nodes, tally).1,
        ),
    decreases MAX_INTERNAL_DEPTH - visit.depth, 0nat, items.len(),
{
    let brood = scene.brood(visit, items);
    let found = scene.children(visit, items, nodes, tally);
    if items.len() == 0 {
        assert(found.0 =~= nodes + brood.nodes);
        assert(found.1.errors =~= tally.errors + brood.errors);
    } else {
        lemma_brood_first(scene, visit, items);
        let first = scene.questions_at(visit, items[0], above);
        let rest = scene.questions_among(visit, items.skip(1), above);
        let child = scene.child(visit, items[0], tally);
        assert(never_twice(first) && apart(first, tally.visited)) by {
            lemma_apart_behind(first, rest, tally.visited, tally.visited);
        }
        lemma_nothing_seen_behind(first, rest);
        assert(scene.loops_are_told_at(visit, items[0], above));
        lemma_same_child(scene, visit, items[0], above, tally);
        lemma_apart_behind(first, rest, tally.visited, child.1.visited);
        let more = extended(nodes, child.0);
        assert forall|i: int|
            0 <= i < items.skip(1).len() implies scene.loops_are_told_at(
            visit,
            #[trigger] items.skip(1)[i],
            above,
        ) by {
            assert(scene.loops_are_told_at(visit, items[i + 1], above));
        }
        lemma_same_children(scene, visit, items.skip(1), more, above, child.1);
        assert(found == scene.children(visit, items.skip(1), more, child.1));
        assert(found.0 =~= nodes + brood.nodes);
        assert(found.1.errors =~= tally.errors + brood.errors);
        lemma_with_met_behind(
            first,
            rest,
            tally.visited,
            child.1.visited,
            found.1.visited,
        );
    }
}

/// The same of one entry of a directory.
proof fn lemma_same_child(
    scene: Scene,
    visit: VisitView,
    item: DirItem,
    above: Set<Key>,
    tally: Tally,
)
    requires
        visit.depth < MAX_INTERNAL_DEPTH,
        scene.loops_are_told_at(visit, item, above),
        agreeing(scene.questions_at(visit, item, above), above, tally),
    ensures
        scene.child(visit, item, tally).0 == scene.offspring(visit, item).tree,
        behind(
            tally,
            scene.offspring(visit, item).errors,
            scene.questions_at(visit, item, above),
            scene.child(visit, item, tally).1,
        ),
    decreases MAX_INTERNAL_DEPTH - visit.depth, 0nat, 0nat,
{
    let world = scene.world;
    let found = scene.offspring(visit, item);
    let met = scene.questions_at(visit, item, above);
    let child = visit.child(item);
    let after = scene.child(visit, item, tally).1;
    match child_plan(scene.config, item, visit.parent_matched, visit.ignore) {
        ChildPlan::CheckLink => {
            let key = (world.identity)(item.path)@;
            if above.contains(key) {
                assert(after.errors =~= tally.errors + found.errors);
            } else {
                assert(met.len() > 0 && met[0].key == key);
                assert(!met[0].seen);
                assert(!tally.visited.contains(met[0].key));
                if !scene.claims(child) {
                    let none = scene.questions_besides(child, above);
                    assert(none.len() == 0);
                    lemma_same_node(scene, child, above, tally);
                    assert(after.visited.subset_of(with_met(tally.visited, none)));
                } else {
                    lemma_same_node(scene, child, above, tally);
                }
            }
        },
        ChildPlan::Descend => {
            lemma_same_node(scene, child, above, tally);
        },
        _ => {
            assert(after.errors =~= tally.errors + found.errors);
        },
    }
}

/// Parallel traversal finds what sequential traversal finds: where no directory is met
/// twice except inside itself, the tree is the same and so are the errors, however the
/// workers were scheduled.
///
/// A schedule shows only in what the tasks are told about directories that were entered
/// before. Who comes back to a directory from inside it, as through a link that leads
/// upwards, is always told; everybody else is told so only because of a claim that another
/// task made. That every run is so is shown in `laws::schedules`.
pub proof fn both_modes_agree(scene: Scene, root: FsPath, ignore: IgnoreView)
    requires
        ({
            let visit = VisitView {
                path: root,
                depth: 0,
                included: false,
                parent_matched: false,
                ignore,
            };
            let met = scene.questions_besides(visit, Set::empty());
            scene.loops_are_told(visit, Set::empty()) && never_twice(met) && answers_fit(met)
        }),
    ensures
        ({
            let found = scene.traversal(root, ignore);
            carried_out(
                scene.world,
                root_task(scene.config, root, scene.root_device, ignore),
                rounds_below(0),
            ) == Some(OutcomeView { tree: found.0, errors: found.1.errors })
        }),
{
    let visit = VisitView { path: root, depth: 0, included: false, parent_matched: false, ignore };
    let met = scene.questions_besides(visit, Set::empty());
    assert forall|i: int| 0 <= i < met.len() implies !(#[trigger] met[i]).seen by {
        if met[i].seen {
            let j = choose|j: int|
                0 <= j < met.len() && j != i && (#[trigger] met[j]).claim && met[j].key
                    == met[i].key;
            assert(met[j].key != met[i].key) by {
                if i < j {
                    assert(met[i].key != met[j].key);
                } else {
                    assert(met[j].key != met[i].key);
                }
            }
        }
    }
    let nothing = Tally { errors: Seq::empty(), visited: Set::empty() };
    let begun = match boundary_error(scene.config, root, scene.root_device) {
        Some(error) => nothing.with_error(error),
        None => nothing,
    };
    let start = root_task(scene.config, root, scene.root_device, ignore);
    assert(begun.errors =~= start.errors);
    lemma_same_node(scene, visit, Set::empty(), begun);
    tasks_find_the_traversal(scene, root, ignore);
}

} // verus!
