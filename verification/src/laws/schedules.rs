//! That the workers of a parallel traversal find what a sequential traversal finds, however
//! their steps are interleaved.

use crate::descend::{descend_verdict, DescendCheck, MAX_INTERNAL_DEPTH};
use crate::entry::EntryView;
use crate::error::{io_error, TreeError};
use crate::ignoring::IgnoreView;
use crate::laws::tasks::{after, after_all, root_crew, told, Crew, Happening};
use crate::listing::{DirItem, ReadDirResult};
use crate::node::{child_plan, finished, ChildPlan};
use crate::ordered_model::Scene;
use crate::parallel_model::{
    answers_fit, belongs, both_modes_agree, handed_over, lemma_gathered, never_twice,
    tasks_find_the_traversal, Meeting,
};
use crate::path::FsPath;
use crate::task::{root_task, OutcomeView, TaskStageView, TaskView};
use crate::visited::Key;
use crate::walk::VisitView;
use vstd::prelude::*;

verus! {

/// A run of a parallel traversal: what happened to its tasks, one thing after the other.
pub struct Run {
    pub scene: Scene,
    pub root: FsPath,
    pub ignore: IgnoreView,
    pub happenings: Seq<Happening>,
}

impl Run {
    /// The tasks before the happening at a moment.
    pub open spec fn crew(self, moment: int) -> Crew {
        after_all(
            self.scene.world,
            root_crew(self.scene.config, self.root, self.scene.root_device, self.ignore),
            self.happenings.take(moment),
        )
    }

    /// A task before the happening at a moment.
    pub open spec fn task(self, moment: int, index: int) -> TaskView {
        self.crew(moment).tasks[index]
    }

    /// Whether there is such a task at a moment.
    pub open spec fn has_task(self, moment: int, index: int) -> bool {
        0 <= index < self.crew(moment).tasks.len()
    }

    /// Whether what is handed to a task for one of its entries was found by a fork for that
    /// entry: the task forked at an earlier moment, and the fork is done.
    pub open spec fn is_found(
        self,
        moment: int,
        index: int,
        item: DirItem,
        outcome: OutcomeView,
        forked: int,
    ) -> bool {
        &&& 0 <= forked < moment
        &&& self.happenings[forked] == Happening::Fork(index, item)
        &&& {
            let fork = self.task(moment, self.crew(forked).tasks.len() as int);
            fork.stage == TaskStageView::Done(outcome.tree) && fork.errors == outcome.errors
        }
    }

    /// Whether a task is handed what forks for its entries found, in the order of the
    /// entries.
    pub open spec fn is_handed_back(
        self,
        moment: int,
        index: int,
        outcomes: Seq<OutcomeView>,
    ) -> bool {
        let items = self.task(moment, index).stage->Fork_2;
        &&& outcomes.len() == items.len()
        &&& forall|i: int|
            0 <= i < items.len() ==> exists|forked: int|
                self.is_found(moment, index, items[i], #[trigger] outcomes[i], forked)
    }

    /// Whether a happening is one that a driver brings about. It hands a task what the file
    /// system answers; about directories that were entered before, that is what was true at
    /// the moment. It forks a task for an entry of its directory, and hands it what the forks
    /// found once all are done.
    pub open spec fn is_driven(self, moment: int) -> bool {
        let crew = self.crew(moment);
        match self.happenings[moment] {
            Happening::Answer(index, reply) => {
                &&& self.has_task(moment, index)
                &&& match crew.tasks[index].asks() {
                    Some(ask) => told(self.scene.world, crew, crew.tasks[index], reply)
                        == self.scene.world.answer(ask),
                    None => true,
                }
            },
            Happening::Fork(index, item) => {
                &&& self.has_task(moment, index)
                &&& crew.tasks[index].stage is Fork
                &&& crew.tasks[index].stage->Fork_2.contains(item)
            },
            Happening::Join(index, outcomes) => {
                &&& self.has_task(moment, index)
                &&& crew.tasks[index].stage is Fork
                &&& self.is_handed_back(moment, index, outcomes)
            },
        }
    }

    /// Whether a driver brings the whole run about, in whatever order.
    pub open spec fn is_genuine(self) -> bool {
        forall|moment: int|
            0 <= moment < self.happenings.len() ==> #[trigger] self.is_driven(moment)
    }

    /// The tasks when nothing more happens.
    pub open spec fn last(self) -> Crew {
        self.crew(self.happenings.len() as int)
    }

    /// Whether the traversal is over: the task for the root is done.
    pub open spec fn is_over(self) -> bool {
        self.last().tasks[0].stage is Done
    }

    /// The visit of the root.
    pub open spec fn visit(self) -> VisitView {
        VisitView {
            path: self.root,
            depth: 0,
            included: false,
            parent_matched: false,
            ignore: self.ignore,
        }
    }
}

/// What a task that is done hands over.
pub open spec fn outcome_of(task: TaskView) -> OutcomeView {
    OutcomeView { tree: task.stage->Done_0, errors: task.errors }
}

proof fn lemma_next(run: Run, moment: int)
    requires
        0 <= moment < run.happenings.len(),
    ensures
        run.crew(moment + 1) == after(
            run.scene.world,
            run.crew(moment),
            run.happenings[moment],
        ),
{
    assert(run.happenings.take(moment + 1).drop_last() =~= run.happenings.take(moment));
    assert(run.happenings.take(moment + 1).last() == run.happenings[moment]);
}

/// Tasks stay, and so do the directories that were entered.
proof fn lemma_kept(run: Run, first: int, second: int)
    requires
        0 <= first <= second <= run.happenings.len(),
    ensures
        run.crew(first).tasks.len() <= run.crew(second).tasks.len(),
        forall|key: Key| run.crew(first).entered.contains(key) ==> #[trigger] run.crew(
            second,
        ).entered.contains(key),
    decreases second - first,
{
    if first < second {
        let before = second - 1;
        lemma_kept(run, first, before);
        lemma_next(run, before);
        assert forall|key: Key| run.crew(first).entered.contains(key) implies #[trigger] run.crew(
            second,
        ).entered.contains(key) by {
            assert(run.crew(before).entered.contains(key));
            let old_keys = run.crew(before).entered;
            let i = choose|i: int| 0 <= i < old_keys.len() && old_keys[i] == key;
            assert(run.crew(second).entered[i] == key);
        }
    }
}

/// A task that is done stays as it is; one that forked stays so until it is done.
proof fn lemma_rests(run: Run, index: int, first: int, second: int)
    requires
        0 <= first <= second <= run.happenings.len(),
        run.has_task(first, index),
        run.task(first, index).stage is Done || run.task(first, index).stage is Fork,
    ensures
        run.has_task(second, index),
        run.task(first, index).stage is Done ==> run.task(second, index) == run.task(first, index),
        run.task(second, index).stage is Done || run.task(second, index).stage is Fork,
    decreases second - first,
{
    if first < second {
        lemma_rests(run, index, first, second - 1);
        lemma_next(run, second - 1);
    }
}

/// A task that asks and is done later was answered in between.
proof fn lemma_next_answer(run: Run, index: int, from: int, end: int) -> (moment: int)
    requires
        run.is_genuine(),
        0 <= from <= end <= run.happenings.len(),
        run.has_task(from, index),
        run.task(from, index).asks() is Some,
        run.task(end, index).stage is Done,
    ensures
        from <= moment < end,
        run.has_task(moment, index),
        run.has_task(moment + 1, index),
        run.task(moment, index) == run.task(from, index),
        run.task(moment + 1, index) == run.task(from, index).answered(
            run.scene.world.answer(run.task(from, index).asks()->Some_0),
        ),
        run.happenings[moment] is Answer,
        run.happenings[moment]->Answer_0 == index,
    decreases end - from,
{
    let task = run.task(from, index);
    lemma_next(run, from);
    assert(run.is_driven(from));
    match run.happenings[from] {
        Happening::Answer(other, reply) if other == index => from,
        _ => {
            assert(run.task(from + 1, index) == task);
            lemma_next_answer(run, index, from + 1, end)
        },
    }
}

/// A task that forked and is done later was handed what its forks found in between.
proof fn lemma_next_join(run: Run, index: int, from: int, end: int) -> (moment: int)
    requires
        run.is_genuine(),
        0 <= from <= end <= run.happenings.len(),
        run.has_task(from, index),
        run.task(from, index).stage is Fork,
        run.task(end, index).stage is Done,
    ensures
        from <= moment < end,
        run.has_task(moment, index),
        run.has_task(moment + 1, index),
        run.task(moment, index) == run.task(from, index),
        run.happenings[moment] is Join,
        run.happenings[moment]->Join_0 == index,
        run.task(moment + 1, index) == run.task(from, index).joined(
            run.happenings[moment]->Join_1,
        ),
    decreases end - from,
{
    let task = run.task(from, index);
    lemma_next(run, from);
    assert(run.is_driven(from));
    match run.happenings[from] {
        Happening::Join(other, _) if other == index => from,
        _ => {
            assert(run.task(from + 1, index) == task);
            lemma_next_join(run, index, from + 1, end)
        },
    }
}

/// Whether everybody who is told that a directory was entered before is told the truth.
pub open spec fn is_truthful(met: Seq<Meeting>, entered: Seq<Key>) -> bool {
    forall|i: int| 0 <= i < met.len() && (#[trigger] met[i]).seen ==> entered.contains(met[i].key)
}

/// Whether directories were entered.
spec fn all_entered(keys: Set<Key>, entered: Seq<Key>) -> bool {
    forall|key: Key| #[trigger] keys.contains(key) ==> entered.contains(key)
}

proof fn lemma_truthful_behind(front: Seq<Meeting>, back: Seq<Meeting>, entered: Seq<Key>)
    requires
        is_truthful(front, entered),
        is_truthful(back, entered),
    ensures
        is_truthful(front + back, entered),
{
    let met = front + back;
    assert forall|i: int| 0 <= i < met.len() && (#[trigger] met[i]).seen implies entered.contains(
        met[i].key,
    ) by {
        if i < front.len() {
            assert(met[i] == front[i]);
        } else {
            assert(met[i] == back[i - front.len()]);
        }
    }
}

proof fn lemma_truthful_among(
    scene: Scene,
    visit: VisitView,
    items: Seq<DirItem>,
    above: Set<Key>,
    entered: Seq<Key>,
)
    requires
        visit.depth < MAX_INTERNAL_DEPTH,
        forall|i: int|
            0 <= i < items.len() ==> is_truthful(
                scene.questions_at(visit, #[trigger] items[i], above),
                entered,
            ),
    ensures
        is_truthful(scene.questions_among(visit, items, above), entered),
    decreases items.len(),
{
    if items.len() > 0 {
        let rest = items.skip(1);
        assert forall|i: int| 0 <= i < rest.len() implies is_truthful(
            scene.questions_at(visit, #[trigger] rest[i], above),
            entered,
        ) by {
            assert(rest[i] == items[i + 1]);
        }
        lemma_truthful_among(scene, visit, rest, above, entered);
        assert(is_truthful(scene.questions_at(visit, items[0], above), entered));
        lemma_truthful_behind(
            scene.questions_at(visit, items[0], above),
            scene.questions_among(visit, rest, above),
            entered,
        );
    }
}

/// What is known of the task for a directory once it is done: it found what there is to find,
/// and its questions were answered as they are in a run.
spec fn is_settled(
    run: Run,
    errors: Seq<TreeError>,
    visit: VisitView,
    above: Set<Key>,
    index: int,
    end: int,
) -> bool {
    &&& outcome_of(run.task(end, index)) == handed_over(errors, run.scene.alone(visit))
    &&& run.scene.loops_are_told(visit, above)
    &&& is_truthful(run.scene.questions_besides(visit, above), run.crew(end).entered)
}

/// The task for a directory.
proof fn lemma_node_run(
    run: Run,
    task: TaskView,
    visit: VisitView,
    above: Set<Key>,
    index: int,
    from: int,
    end: int,
)
    requires
        run.is_genuine(),
        0 <= from <= end <= run.happenings.len(),
        run.has_task(from, index),
        run.task(from, index) == task.enter(visit),
        belongs(run.scene, task),
        all_entered(above, run.crew(from).entered),
        run.task(end, index).stage is Done,
    ensures
        is_settled(run, task.errors, visit, above, index, end),
    decreases MAX_INTERNAL_DEPTH - visit.depth, 3nat,
{
    let scene = run.scene;
    let world = scene.world;
    let found = scene.alone(visit);
    if visit.depth >= MAX_INTERNAL_DEPTH {
        lemma_rests(run, index, from, end);
        assert(task.errors.push(TreeError::MaxDepthExceeded(visit.path)) =~= task.errors
            + found.errors);
    } else {
        let asked = lemma_next_answer(run, index, from, end);
        let described = run.task(asked + 1, index);
        assert(described == task.on_stat(visit, (world.stat)(visit.path, visit.depth)));
        lemma_kept(run, from, asked + 1);
        match (world.stat)(visit.path, visit.depth) {
            Err(error) => {
                lemma_rests(run, index, asked + 1, end);
                assert(task.errors.push(error) =~= task.errors + found.errors);
            },
            Ok(entry) => {
                let decided = task.on_volume(visit, entry@, (world.volume)(visit.path));
                if described.stage is Volume {
                    let measured = lemma_next_answer(run, index, asked + 1, end);
                    assert(run.task(measured + 1, index) == decided);
                    lemma_kept(run, from, measured + 1);
                    lemma_decided_run(
                        run,
                        task,
                        visit,
                        entry@,
                        above,
                        index,
                        measured + 1,
                        end,
                    );
                } else {
                    assert(described == decided);
                    lemma_decided_run(run, task, visit, entry@, above, index, asked + 1, end);
                }
            },
        }
    }
}

/// The task for a directory behind the decision whether to descend.
#[verifier::rlimit(30)]
proof fn lemma_decided_run(
    run: Run,
    task: TaskView,
    visit: VisitView,
    entry: EntryView,
    above: Set<Key>,
    index: int,
    from: int,
    end: int,
)
    requires
        run.is_genuine(),
        0 <= from <= end <= run.happenings.len(),
        run.has_task(from, index),
        visit.depth < MAX_INTERNAL_DEPTH,
        (run.scene.world.stat)(visit.path, visit.depth) is Ok,
        (run.scene.world.stat)(visit.path, visit.depth)->Ok_0@ == entry,
        run.task(from, index) == task.on_volume(
            visit,
            entry,
            (run.scene.world.volume)(visit.path),
        ),
        belongs(run.scene, task),
        all_entered(above, run.crew(from).entered),
        run.task(end, index).stage is Done,
    ensures
        is_settled(run, task.errors, visit, above, index, end),
    decreases MAX_INTERNAL_DEPTH - visit.depth, 2nat,
{
    let scene = run.scene;
    let world = scene.world;
    let found = scene.alone(visit);
    let key = (world.identity)(visit.path)@;
    match descend_verdict(
        entry.entry_type,
        visit.path,
        visit.depth,
        scene.config,
        scene.root_device,
        (world.volume)(visit.path),
    ) {
        DescendCheck::Leaf => {
            lemma_rests(run, index, from, end);
            assert(task.errors =~= task.errors + found.errors);
        },
        DescendCheck::LeafWithError(error) => {
            lemma_rests(run, index, from, end);
            assert(task.errors.push(error) =~= task.errors + found.errors);
        },
        DescendCheck::Proceed => {
            let claimed = lemma_next_answer(run, index, from, end);
            let seen = (world.claim)(visit.path);
            let meeting = Meeting { key, claim: true, seen };
            assert(run.is_driven(claimed));
            lemma_next(run, claimed);
            lemma_kept(run, from, claimed);
            lemma_kept(run, claimed, end);
            assert(seen == run.crew(claimed).entered.contains(key));
            assert(above.contains(key) ==> run.crew(from).entered.contains(key));
            assert(run.task(claimed + 1, index) == task.on_claim(visit, entry, seen));
            if seen {
                lemma_rests(run, index, claimed + 1, end);
                assert(task.errors =~= task.errors + found.errors);
                assert(is_truthful(seq![meeting], run.crew(end).entered));
            } else {
                let entered = run.crew(claimed + 1).entered;
                assert(entered == run.crew(claimed).entered.push(key));
                assert(entered[entered.len() - 1] == key);
                lemma_kept(run, from, claimed + 1);
                lemma_entered_run(run, task, visit, entry, above, index, claimed + 1, end);
            }
        },
    }
}

/// The task for a directory that it has entered comes to read it.
proof fn lemma_read_run(
    run: Run,
    task: TaskView,
    visit: VisitView,
    entry: EntryView,
    index: int,
    from: int,
    end: int,
) -> (moment: int)
    requires
        run.is_genuine(),
        0 <= from <= end <= run.happenings.len(),
        run.has_task(from, index),
        run.task(from, index) == task.at(TaskStageView::Permit(visit, entry)),
        run.task(end, index).stage is Done,
    ensures
        from <= moment < end,
        run.has_task(moment, index),
        run.task(moment, index).stage is Read,
        run.has_task(moment + 1, index),
        run.task(moment + 1, index) == task.on_list(
            visit,
            entry,
            (run.scene.world.list)(visit.path),
        ),
{
    let listing = (run.scene.world.list)(visit.path);
    let permitted = lemma_next_answer(run, index, from, end);
    assert(run.task(permitted + 1, index) == task.at(TaskStageView::List(visit, entry)));
    let listed = lemma_next_answer(run, index, permitted + 1, end);
    assert(run.task(listed + 1, index) == task.at(TaskStageView::Read(visit, entry, listing)));
    lemma_next_answer(run, index, listed + 1, end)
}

/// The task for a directory that it has entered.
#[verifier::rlimit(30)]
proof fn lemma_entered_run(
    run: Run,
    task: TaskView,
    visit: VisitView,
    entry: EntryView,
    above: Set<Key>,
    index: int,
    from: int,
    end: int,
)
    requires
        run.is_genuine(),
        0 <= from <= end <= run.happenings.len(),
        run.has_task(from, index),
        (run.scene.world.stat)(visit.path, visit.depth) is Ok,
        (run.scene.world.stat)(visit.path, visit.depth)->Ok_0@ == entry,
        run.scene.claims(visit),
        !(run.scene.world.claim)(visit.path),
        !above.contains((run.scene.world.identity)(visit.path)@),
        run.task(from, index) == task.at(TaskStageView::Permit(visit, entry)),
        belongs(run.scene, task),
        all_entered(
            above.insert((run.scene.world.identity)(visit.path)@),
            run.crew(from).entered,
        ),
        run.task(end, index).stage is Done,
    ensures
        is_settled(run, task.errors, visit, above, index, end),
    decreases MAX_INTERNAL_DEPTH - visit.depth, 1nat,
{
    let scene = run.scene;
    let world = scene.world;
    let found = scene.alone(visit);
    let key = (world.identity)(visit.path)@;
    let meeting = Meeting { key, claim: true, seen: false };
    let listing = (world.list)(visit.path);
    let given_back = lemma_read_run(run, task, visit, entry, index, from, end);
    assert(found == scene.within(visit, entry));
    assert(is_truthful(seq![meeting], run.crew(end).entered));
    match listing {
        ReadDirResult::ReadError(fault) => {
            lemma_rests(run, index, given_back + 1, end);
            assert(task.errors.push(io_error(visit.path, fault)) =~= task.errors + found.errors);
        },
        ReadDirResult::FilelimitExceeded(_) => {
            lemma_rests(run, index, given_back + 1, end);
            assert(task.errors =~= task.errors + found.errors);
        },
        ReadDirResult::Entries(items) => {
            let inside = visit.with_rules((world.rules)(visit.path));
            let forked = task.at(TaskStageView::Fork(inside, entry, items@));
            let last = if visit.ignore.enabled {
                lemma_next_answer(run, index, given_back + 1, end)
            } else {
                assert(inside == visit);
                given_back
            };
            assert(run.task(last + 1, index) == forked);
            lemma_kept(run, from, last + 1);
            lemma_forked_run(
                run,
                forked,
                inside,
                entry,
                items@,
                above.insert(key),
                index,
                last + 1,
                end,
            );
            lemma_truthful_behind(
                seq![meeting],
                scene.questions_among(inside, items@, above.insert(key)),
                run.crew(end).entered,
            );
        },
    }
}

/// A task that has just forked.
#[verifier::rlimit(30)]
proof fn lemma_forked_run(
    run: Run,
    task: TaskView,
    visit: VisitView,
    entry: EntryView,
    items: Seq<DirItem>,
    above: Set<Key>,
    index: int,
    from: int,
    end: int,
)
    requires
        run.is_genuine(),
        0 < from <= end <= run.happenings.len(),
        run.has_task(from - 1, index),
        run.has_task(from, index),
        !(run.task(from - 1, index).stage is Fork),
        !(run.task(from - 1, index).stage is Done),
        visit.depth < MAX_INTERNAL_DEPTH,
        task.stage == TaskStageView::Fork(visit, entry, items),
        run.task(from, index) == task,
        belongs(run.scene, task),
        all_entered(above, run.crew(from).entered),
        run.task(end, index).stage is Done,
    ensures
        ({
            let brood = run.scene.brood(visit, items);
            &&& outcome_of(run.task(end, index)) == outcome_of(
                TaskView { errors: task.errors + brood.errors, ..task }.at(
                    TaskStageView::Done(
                        finished(
                            run.scene.config,
                            visit.included,
                            visit.depth,
                            entry,
                            brood.nodes,
                        ),
                    ),
                ),
            )
            &&& forall|i: int|
                0 <= i < items.len() ==> run.scene.loops_are_told_at(
                    visit,
                    #[trigger] items[i],
                    above,
                )
            &&& is_truthful(
                run.scene.questions_among(visit, items, above),
                run.crew(end).entered,
            )
        }),
    decreases MAX_INTERNAL_DEPTH - visit.depth, 0nat,
{
    let scene = run.scene;
    let joined = lemma_next_join(run, index, from, end);
    let outcomes = run.happenings[joined]->Join_1;
    assert(run.is_driven(joined));
    assert(run.is_handed_back(joined, index, outcomes));
    assert forall|i: int| 0 <= i < items.len() implies {
        &&& (#[trigger] outcomes[i]) == handed_over(
            Seq::empty(),
            scene.offspring(visit, items[i]),
        )
        &&& scene.loops_are_told_at(visit, items[i], above)
        &&& is_truthful(scene.questions_at(visit, items[i], above), run.crew(end).entered)
    } by {
        let forked = choose|forked: int|
            run.is_found(joined, index, items[i], outcomes[i], forked);
        assert(run.is_driven(forked));
        if forked < from {
            lemma_rests(run, index, forked, from - 1);
        }
        lemma_rests(run, index, from, joined);
        assert(run.task(forked, index) == task) by {
            lemma_stays_forked(run, index, from, forked, joined);
        }
        lemma_next(run, forked);
        let fork = run.crew(forked).tasks.len() as int;
        assert(run.task(forked + 1, fork) == task.fork(visit, items[i]));
        lemma_kept(run, from, forked + 1);
        lemma_child_run(run, task, visit, items[i], above, fork, forked + 1, joined);
        lemma_kept(run, joined, end);
    }
    lemma_gathered(scene, visit, items, outcomes);
    assert forall|i: int| 0 <= i < items.len() implies scene.loops_are_told_at(
        visit,
        #[trigger] items[i],
        above,
    ) by {
        assert(outcomes[i] == handed_over(Seq::empty(), scene.offspring(visit, items[i])));
    }
    assert forall|i: int| 0 <= i < items.len() implies is_truthful(
        scene.questions_at(visit, #[trigger] items[i], above),
        run.crew(end).entered,
    ) by {
        assert(outcomes[i] == handed_over(Seq::empty(), scene.offspring(visit, items[i])));
    }
    lemma_truthful_among(scene, visit, items, above, run.crew(end).entered);
    lemma_rests(run, index, joined + 1, end);
}

/// A task that forked and was not yet handed anything has not changed in between.
proof fn lemma_stays_forked(run: Run, index: int, first: int, middle: int, last: int)
    requires
        run.is_genuine(),
        0 <= first <= middle <= last <= run.happenings.len(),
        run.has_task(first, index),
        run.task(first, index).stage is Fork,
        run.task(last, index).stage is Fork,
    ensures
        run.has_task(middle, index),
        run.task(middle, index) == run.task(first, index),
    decreases middle - first,
{
    if first < middle {
        lemma_stays_forked(run, index, first, middle - 1, last);
        lemma_next(run, middle - 1);
        assert(run.is_driven(middle - 1));
        if run.task(middle, index).stage is Done {
            lemma_rests(run, index, middle, last);
        }
    }
}

/// The task for an entry of a directory.
#[verifier::rlimit(30)]
proof fn lemma_child_run(
    run: Run,
    task: TaskView,
    visit: VisitView,
    item: DirItem,
    above: Set<Key>,
    index: int,
    from: int,
    end: int,
)
    requires
        run.is_genuine(),
        0 <= from <= end <= run.happenings.len(),
        run.has_task(from, index),
        visit.depth < MAX_INTERNAL_DEPTH,
        run.task(from, index) == task.fork(visit, item),
        belongs(run.scene, task),
        all_entered(above, run.crew(from).entered),
        run.task(end, index).stage is Done,
    ensures
        outcome_of(run.task(end, index)) == handed_over(
            Seq::empty(),
            run.scene.offspring(visit, item),
        ),
        run.scene.loops_are_told_at(visit, item, above),
        is_truthful(run.scene.questions_at(visit, item, above), run.crew(end).entered),
    decreases MAX_INTERNAL_DEPTH - visit.depth - 1, 4nat,
{
    let scene = run.scene;
    let world = scene.world;
    let found = scene.offspring(visit, item);
    let none = Seq::<TreeError>::empty();
    let fresh = TaskView { errors: none, stage: TaskStageView::Done(None), ..task };
    let depth = (visit.depth + 1) as usize;
    let child = visit.child(item);
    let described = (world.describe)(item.path, depth);
    assert(none + found.errors =~= found.errors);
    match child_plan(scene.config, item, visit.parent_matched, visit.ignore) {
        ChildPlan::Skip => {
            lemma_rests(run, index, from, end);
        },
        ChildPlan::Reserved => {
            lemma_rests(run, index, from, end);
            assert(run.task(from, index).errors =~= found.errors);
        },
        ChildPlan::CheckLink => {
            let key = (world.identity)(item.path)@;
            let seen = (world.seen)(item.path);
            let asked = lemma_next_answer(run, index, from, end);
            assert(run.is_driven(asked));
            lemma_kept(run, from, asked);
            lemma_kept(run, asked, end);
            lemma_kept(run, from, asked + 1);
            assert(seen == run.crew(asked).entered.contains(key));
            assert(above.contains(key) ==> run.crew(from).entered.contains(key));
            assert(run.task(asked + 1, index) == fresh.on_link_seen(child, seen));
            if seen {
                let linked = lemma_next_answer(run, index, asked + 1, end);
                lemma_rests(run, index, linked + 1, end);
                assert(run.task(linked + 1, index).errors =~= found.errors);
            } else {
                lemma_node_run(run, fresh, child, above, index, asked + 1, end);
                assert(none + scene.alone(child).errors =~= scene.alone(child).errors);
            }
        },
        ChildPlan::Descend => {
            lemma_node_run(run, fresh, child, above, index, from, end);
        },
        ChildPlan::File => {
            let asked = lemma_next_answer(run, index, from, end);
            assert(run.task(asked + 1, index) == fresh.on_file_entry(item.path, depth, described));
            if run.task(asked + 1, index).stage is FileStreams {
                let listed = lemma_next_answer(run, index, asked + 1, end);
                lemma_rests(run, index, listed + 1, end);
            } else {
                lemma_rests(run, index, asked + 1, end);
            }
            assert(run.task(end, index).errors =~= found.errors);
        },
    }
}

impl Scene {
    /// The questions that a task and its forks still ask, besides those about the directories
    /// that lie above, and besides one about a link.
    spec fn open_questions(self, task: TaskView, above: Set<Key>) -> Seq<Meeting> {
        match task.stage {
            TaskStageView::Stat(visit) => self.questions_besides(visit, above),
            TaskStageView::Volume(visit, _) => self.questions_besides(visit, above),
            TaskStageView::Claim(visit, _) => self.questions_besides(visit, above),
            TaskStageView::Permit(visit, _) => self.questions_inside(visit, above),
            TaskStageView::List(visit, _) => self.questions_inside(visit, above),
            TaskStageView::Read(visit, _, _) => self.questions_inside(visit, above),
            TaskStageView::Rules(visit, _, items) => self.questions_among(
                visit.with_rules((self.world.rules)(visit.path)),
                items,
                above,
            ),
            TaskStageView::Fork(visit, _, items) => self.questions_among(visit, items, above),
            TaskStageView::LinkSeen(visit) => if (self.world.seen)(visit.path) {
                Seq::empty()
            } else {
                self.questions_besides(visit, above)
            },
            _ => Seq::empty(),
        }
    }

    /// The questions of the tasks for the entries of a directory that was entered.
    spec fn questions_inside(self, visit: VisitView, above: Set<Key>) -> Seq<Meeting> {
        match (self.world.list)(visit.path) {
            ReadDirResult::Entries(items) => self.questions_among(
                visit.with_rules((self.world.rules)(visit.path)),
                items@,
                above,
            ),
            _ => Seq::empty(),
        }
    }

    /// Whether what a task holds is what the file system told it.
    spec fn is_informed(self, task: TaskView) -> bool {
        &&& belongs(self, task)
        &&& match task.stage {
            TaskStageView::Stat(visit) => visit.depth < MAX_INTERNAL_DEPTH,
            TaskStageView::Volume(visit, entry) => {
                let described = (self.world.stat)(visit.path, visit.depth);
                &&& visit.depth < MAX_INTERNAL_DEPTH
                &&& described is Ok
                &&& described->Ok_0@ == entry
            },
            TaskStageView::Claim(visit, _) => self.claims(visit),
            TaskStageView::Permit(visit, _) => visit.depth < MAX_INTERNAL_DEPTH,
            TaskStageView::List(visit, _) => visit.depth < MAX_INTERNAL_DEPTH,
            TaskStageView::Read(visit, _, listing) => visit.depth < MAX_INTERNAL_DEPTH && listing
                == (self.world.list)(visit.path),
            TaskStageView::Rules(visit, _, _) => visit.depth < MAX_INTERNAL_DEPTH,
            TaskStageView::Fork(visit, _, _) => visit.depth < MAX_INTERNAL_DEPTH,
            _ => true,
        }
    }
}

/// Whether questions are among others.
spec fn are_among(met: Seq<Meeting>, all: Seq<Meeting>) -> bool {
    forall|i: int| 0 <= i < met.len() ==> all.contains(#[trigger] met[i])
}

/// Whether the questions that a task still asks are among others.
spec fn fits_in(
    scene: Scene,
    task: TaskView,
    above: Set<Key>,
    entered: Seq<Key>,
    all: Seq<Meeting>,
) -> bool {
    &&& scene.is_informed(task)
    &&& all_entered(above, entered)
    &&& are_among(scene.open_questions(task, above), all)
}

/// The same, whatever lies above.
spec fn has_its_place(
    scene: Scene,
    task: TaskView,
    entered: Seq<Key>,
    all: Seq<Meeting>,
) -> bool {
    exists|above: Set<Key>| fits_in(scene, task, above, entered, all)
}

/// The same of several tasks.
spec fn all_fit_in(
    scene: Scene,
    tasks: Seq<TaskView>,
    entered: Seq<Key>,
    all: Seq<Meeting>,
) -> bool {
    forall|i: int|
        0 <= i < tasks.len() ==> has_its_place(scene, #[trigger] tasks[i], entered, all)
}

/// Whether each directory that was entered was claimed by one of the questions.
spec fn all_claimed(entered: Seq<Key>, all: Seq<Meeting>) -> bool {
    forall|key: Key| #[trigger]
        entered.contains(key) ==> all.contains(Meeting { key, claim: true, seen: false })
}

proof fn lemma_among_behind(front: Seq<Meeting>, back: Seq<Meeting>, all: Seq<Meeting>)
    requires
        are_among(front + back, all),
    ensures
        are_among(front, all),
        are_among(back, all),
{
    let met = front + back;
    assert forall|i: int| 0 <= i < front.len() implies all.contains(#[trigger] front[i]) by {
        assert(met[i] == front[i]);
    }
    assert forall|i: int| 0 <= i < back.len() implies all.contains(#[trigger] back[i]) by {
        assert(met[front.len() + i] == back[i]);
    }
}

proof fn lemma_among_item(
    scene: Scene,
    visit: VisitView,
    items: Seq<DirItem>,
    above: Set<Key>,
    index: int,
    all: Seq<Meeting>,
)
    requires
        visit.depth < MAX_INTERNAL_DEPTH,
        0 <= index < items.len(),
        are_among(scene.questions_among(visit, items, above), all),
    ensures
        are_among(scene.questions_at(visit, items[index], above), all),
    decreases items.len(),
{
    let rest = items.skip(1);
    lemma_among_behind(
        scene.questions_at(visit, items[0], above),
        scene.questions_among(visit, rest, above),
        all,
    );
    if index > 0 {
        assert(rest[index - 1] == items[index]);
        lemma_among_item(scene, visit, rest, above, index - 1, all);
    }
}

/// What a task asks after an answer, it asked before.
proof fn lemma_answer_fits(
    scene: Scene,
    task: TaskView,
    above: Set<Key>,
    before: Seq<Key>,
    entered: Seq<Key>,
    all: Seq<Meeting>,
) -> (inside: Set<Key>)
    requires
        fits_in(scene, task, above, before, all),
        task.asks() is Some,
        forall|key: Key| #[trigger] before.contains(key) ==> entered.contains(key),
        match task.stage {
            TaskStageView::Claim(visit, _) => {
                let key = (scene.world.identity)(visit.path)@;
                &&& (scene.world.claim)(visit.path) == before.contains(key)
                &&& entered.contains(key)
            },
            _ => true,
        },
    ensures
        fits_in(
            scene,
            task.answered(scene.world.answer(task.asks()->Some_0)),
            inside,
            entered,
            all,
        ),
        task.stage is Claim && !(scene.world.claim)(task.stage->Claim_0.path) ==> all.contains(
            Meeting {
                key: (scene.world.identity)(task.stage->Claim_0.path)@,
                claim: true,
                seen: false,
            },
        ),
{
    let world = scene.world;
    let next = task.answered(world.answer(task.asks()->Some_0));
    assert(all_entered(above, entered)) by {
        assert forall|key: Key| #[trigger] above.contains(key) implies entered.contains(key) by {
            assert(before.contains(key));
        }
    }
    match task.stage {
        TaskStageView::Claim(visit, entry) => {
            let key = (world.identity)(visit.path)@;
            if before.contains(key) {
                above
            } else {
                assert(!above.contains(key));
                let meeting = Meeting { key, claim: true, seen: false };
                let met = scene.questions_besides(visit, above);
                let inside = above.insert(key);
                assert(met =~= seq![meeting] + scene.questions_inside(visit, inside));
                lemma_among_behind(seq![meeting], scene.questions_inside(visit, inside), all);
                assert(seq![meeting][0] == meeting);
                assert(next.stage == TaskStageView::Permit(visit, entry));
                inside
            }
        },
        TaskStageView::Read(visit, entry, listing) => {
            if let ReadDirResult::Entries(items) = listing {
                if !visit.ignore.enabled {
                    assert(visit.with_rules((world.rules)(visit.path)) == visit);
                }
            }
            above
        },
        _ => above,
    }
}

/// What a fork asks, the task that it comes from asks too.
proof fn lemma_fork_fits(
    scene: Scene,
    task: TaskView,
    item: DirItem,
    above: Set<Key>,
    entered: Seq<Key>,
    all: Seq<Meeting>,
)
    requires
        fits_in(scene, task, above, entered, all),
        task.stage is Fork,
        task.stage->Fork_2.contains(item),
    ensures
        fits_in(scene, task.fork(task.stage->Fork_0, item), above, entered, all),
{
    let visit = task.stage->Fork_0;
    let items = task.stage->Fork_2;
    let index = choose|i: int| 0 <= i < items.len() && items[i] == item;
    lemma_among_item(scene, visit, items, above, index, all);
}

/// More directories entered leave the questions as they are.
proof fn lemma_still_fit(
    scene: Scene,
    tasks: Seq<TaskView>,
    before: Seq<Key>,
    entered: Seq<Key>,
    all: Seq<Meeting>,
)
    requires
        all_fit_in(scene, tasks, before, all),
        forall|key: Key| before.contains(key) ==> #[trigger] entered.contains(key),
    ensures
        all_fit_in(scene, tasks, entered, all),
{
    assert forall|i: int| 0 <= i < tasks.len() implies has_its_place(
        scene,
        #[trigger] tasks[i],
        entered,
        all,
    ) by {
        let above = choose|above: Set<Key>| fits_in(scene, tasks[i], above, before, all);
        assert forall|key: Key| #[trigger] above.contains(key) implies entered.contains(key) by {
            assert(before.contains(key));
        }
        assert(fits_in(scene, tasks[i], above, entered, all));
    }
}

proof fn lemma_answer_accounted_for(run: Run, moment: int, all: Seq<Meeting>)
    requires
        run.is_genuine(),
        0 <= moment < run.happenings.len(),
        run.happenings[moment] is Answer,
        all_fit_in(run.scene, run.crew(moment).tasks, run.crew(moment).entered, all),
        all_claimed(run.crew(moment).entered, all),
    ensures
        all_fit_in(run.scene, run.crew(moment + 1).tasks, run.crew(moment + 1).entered, all),
        all_claimed(run.crew(moment + 1).entered, all),
{
    let scene = run.scene;
    let world = scene.world;
    let before = run.crew(moment);
    let crew = run.crew(moment + 1);
    let index = run.happenings[moment]->Answer_0;
    let task = before.tasks[index];
    lemma_next(run, moment);
    lemma_kept(run, moment, moment + 1);
    assert(run.is_driven(moment));
    lemma_still_fit(scene, before.tasks, before.entered, crew.entered, all);
    if task.asks() is Some {
        let above = choose|above: Set<Key>| fits_in(scene, task, above, before.entered, all);
        if task.stage is Claim {
            let key = (world.identity)(task.stage->Claim_0.path)@;
            if !before.entered.contains(key) {
                assert(crew.entered == before.entered.push(key));
                assert(crew.entered[crew.entered.len() - 1] == key);
            }
        }
        let inside = lemma_answer_fits(scene, task, above, before.entered, crew.entered, all);
        assert(crew.tasks[index] == task.answered(world.answer(task.asks()->Some_0)));
        assert(fits_in(scene, crew.tasks[index], inside, crew.entered, all));
        assert forall|key: Key| #[trigger] crew.entered.contains(key) implies all.contains(
            Meeting { key, claim: true, seen: false },
        ) by {
            if !before.entered.contains(key) {
                let i = choose|i: int| 0 <= i < crew.entered.len() && crew.entered[i] == key;
                if i < before.entered.len() {
                    assert(before.entered[i] == key);
                }
            }
        }
    } else {
        assert(crew.tasks[index] == task);
    }
    assert forall|i: int| 0 <= i < crew.tasks.len() implies has_its_place(
        scene,
        #[trigger] crew.tasks[i],
        crew.entered,
        all,
    ) by {
        if i != index || task.asks() is None {
            assert(crew.tasks[i] == before.tasks[i]);
        }
    }
}

proof fn lemma_step_accounted_for(run: Run, moment: int, all: Seq<Meeting>)
    requires
        run.is_genuine(),
        0 <= moment < run.happenings.len(),
        !(run.happenings[moment] is Answer),
        all_fit_in(run.scene, run.crew(moment).tasks, run.crew(moment).entered, all),
    ensures
        run.crew(moment + 1).entered == run.crew(moment).entered,
        all_fit_in(run.scene, run.crew(moment + 1).tasks, run.crew(moment + 1).entered, all),
{
    let scene = run.scene;
    let before = run.crew(moment);
    let crew = run.crew(moment + 1);
    lemma_next(run, moment);
    assert(run.is_driven(moment));
    let index = match run.happenings[moment] {
        Happening::Fork(index, _) => index,
        Happening::Join(index, _) => index,
        Happening::Answer(index, _) => index,
    };
    let task = before.tasks[index];
    let above = choose|above: Set<Key>| fits_in(scene, task, above, before.entered, all);
    if let Happening::Fork(_, item) = run.happenings[moment] {
        lemma_fork_fits(scene, task, item, above, before.entered, all);
    }
    assert forall|i: int| 0 <= i < crew.tasks.len() implies has_its_place(
        scene,
        #[trigger] crew.tasks[i],
        crew.entered,
        all,
    ) by {
        if i < before.tasks.len() && crew.tasks[i] == before.tasks[i] {
            let same = choose|same: Set<Key>|
                fits_in(scene, before.tasks[i], same, before.entered, all);
            assert(fits_in(scene, crew.tasks[i], same, crew.entered, all));
        } else {
            assert(fits_in(scene, crew.tasks[i], above, crew.entered, all));
        }
    }
}

/// Everything that the tasks of a run do is among the questions of the traversal.
proof fn lemma_accounted_for(run: Run, moment: int)
    requires
        run.is_genuine(),
        0 <= moment <= run.happenings.len(),
    ensures
        ({
            let all = run.scene.questions_besides(run.visit(), Set::empty());
            &&& all_fit_in(run.scene, run.crew(moment).tasks, run.crew(moment).entered, all)
            &&& all_claimed(run.crew(moment).entered, all)
        }),
    decreases moment,
{
    let scene = run.scene;
    let all = scene.questions_besides(run.visit(), Set::empty());
    if moment == 0 {
        let crew = run.crew(0);
        assert(run.happenings.take(0) =~= Seq::empty());
        assert forall|i: int| 0 <= i < crew.tasks.len() implies has_its_place(
        scene,
        #[trigger] crew.tasks[i],
        crew.entered,
        all,
    ) by {
            assert(fits_in(scene, crew.tasks[i], Set::empty(), crew.entered, all));
        }
    } else {
        lemma_accounted_for(run, moment - 1);
        if run.happenings[moment - 1] is Answer {
            lemma_answer_accounted_for(run, moment - 1, all);
        } else {
            lemma_step_accounted_for(run, moment - 1, all);
        }
    }
}

proof fn lemma_whole_run(run: Run)
    requires
        run.is_genuine(),
        run.is_over(),
    ensures
        is_settled(
            run,
            root_task(run.scene.config, run.root, run.scene.root_device, run.ignore).errors,
            run.visit(),
            Set::empty(),
            0,
            run.happenings.len() as int,
        ),
{
    let scene = run.scene;
    let start = root_task(scene.config, run.root, scene.root_device, run.ignore);
    assert(run.happenings.take(0) =~= Seq::empty());
    assert(run.crew(0).tasks[0] == start);
    assert(start == start.enter(run.visit()));
    lemma_node_run(
        run,
        start,
        run.visit(),
        Set::empty(),
        0,
        0,
        run.happenings.len() as int,
    );
}

/// In every run that comes to an end, what the tasks are told about directories that were
/// entered before is as it has to be: who comes back to a directory from inside it is told,
/// and everybody else is told so only because of a claim that another task made.
pub proof fn runs_tell_the_truth(run: Run)
    requires
        run.is_genuine(),
        run.is_over(),
    ensures
        run.scene.loops_are_told(run.visit(), Set::empty()),
        answers_fit(run.scene.questions_besides(run.visit(), Set::empty())),
{
    let met = run.scene.questions_besides(run.visit(), Set::empty());
    let end = run.happenings.len() as int;
    lemma_whole_run(run);
    lemma_accounted_for(run, end);
    assert forall|i: int| 0 <= i < met.len() && (#[trigger] met[i]).seen implies exists|j: int|
        0 <= j < met.len() && j != i && (#[trigger] met[j]).claim && met[j].key == met[i].key by {
        let first = Meeting { key: met[i].key, claim: true, seen: false };
        assert(run.crew(end).entered.contains(met[i].key));
        assert(met.contains(first));
        let j = choose|j: int| 0 <= j < met.len() && met[j] == first;
        assert(met[j].claim);
    }
}

/// However the steps of the tasks are interleaved, a parallel traversal that comes to an end
/// hands over what its tasks find by themselves.
pub proof fn runs_find_what_there_is(run: Run)
    requires
        run.is_genuine(),
        run.is_over(),
    ensures
        outcome_of(run.last().tasks[0]) == handed_over(
            root_task(run.scene.config, run.root, run.scene.root_device, run.ignore).errors,
            run.scene.alone(run.visit()),
        ),
{
    lemma_whole_run(run);
}

/// However the steps of the tasks are interleaved, a parallel traversal hands over the tree
/// that a sequential traversal finds, and the same errors, where no directory is met twice
/// except inside itself.
pub proof fn every_schedule_finds_the_same(run: Run)
    requires
        run.is_genuine(),
        run.is_over(),
        never_twice(run.scene.questions_besides(run.visit(), Set::empty())),
    ensures
        ({
            let found = run.scene.traversal(run.root, run.ignore);
            outcome_of(run.last().tasks[0]) == OutcomeView {
                tree: found.0,
                errors: found.1.errors,
            }
        }),
{
    runs_tell_the_truth(run);
    runs_find_what_there_is(run);
    both_modes_agree(run.scene, run.root, run.ignore);
    tasks_find_the_traversal(run.scene, run.root, run.ignore);
}

} // verus!
