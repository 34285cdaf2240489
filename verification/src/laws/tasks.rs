//! What holds of the tasks of a parallel traversal, in whatever order they run.

use crate::config::Config;
use crate::error::TreeError;
use crate::ignoring::IgnoreView;
use crate::laws::walking::{
    extends, lemma_extends_by, lemma_extends_itself, lemma_extends_on, lemma_extends_push,
};
use crate::listing::DirItem;
use crate::parallel_model::{carried_out, forks_carried_out};
use crate::path::FsPath;
use crate::protocol::{Ask, Reply, World};
use crate::task::{errors_of, root_task, OutcomeView, TaskStageView, TaskView};
use crate::visited::Key;
use vstd::prelude::*;

verus! {

/// How many permits a task holds.
pub open spec fn permits_of(task: TaskView) -> int {
    if task.holds_permit() {
        1
    } else {
        0
    }
}

/// How many permits a task takes with a reply: one is taken when it is handed out, and one
/// less is held when it was given back.
pub open spec fn permits_taken(task: TaskView, reply: Reply) -> int {
    match (task.asks(), reply) {
        (Some(Ask::TakePermit), Reply::Done) => 1,
        (Some(Ask::ReturnPermit), Reply::Done) => -1,
        _ => 0,
    }
}

/// Whatever a task is told, it holds the permits that it took and did not give back.
pub proof fn permits_are_accounted_for(task: TaskView, reply: Reply)
    ensures
        permits_of(task.answered(reply)) == permits_of(task) + permits_taken(task, reply),
{
}

/// A directory is read only by a task that holds a permit. A permit is asked for only by a
/// task that has none, and given back only by one that has one.
pub proof fn directories_are_read_with_a_permit(task: TaskView)
    ensures
        task.asks() is Some && task.asks()->Some_0 is List ==> permits_of(task) == 1,
        task.asks() == Some(Ask::ReturnPermit) ==> permits_of(task) == 1,
        task.asks() == Some(Ask::TakePermit) ==> permits_of(task) == 0,
{
}

/// A task holds no permit when it starts, while its forks run, or when it is done, so a
/// task that waits for others never keeps them from reading.
pub proof fn no_permit_is_held_while_waiting(
    task: TaskView,
    item: DirItem,
    outcomes: Seq<OutcomeView>,
)
    ensures
        task.stage is Fork || task.stage is Done ==> permits_of(task) == 0,
        task.stage is Fork ==> permits_of(task.fork(task.stage->Fork_0, item)) == 0,
        task.stage is Fork ==> permits_of(task.joined(outcomes)) == 0,
{
}

/// Whatever a task is told, it forgets no error that it met.
pub proof fn tasks_forget_no_error(task: TaskView, reply: Reply)
    ensures
        extends(task.answered(reply).errors, task.errors),
{
    let errors = task.errors;
    lemma_extends_itself(errors);
    assert forall|error: TreeError| #[trigger] extends(errors.push(error), errors) by {
        lemma_extends_push(errors, error);
    }
}

/// A task that its forks are handed back to keeps its errors and takes over all of theirs.
pub proof fn joining_loses_no_error(
    task: TaskView,
    outcomes: Seq<OutcomeView>,
    outcome: int,
    error: int,
)
    requires
        task.stage is Fork,
        0 <= outcome < outcomes.len(),
        0 <= error < outcomes[outcome].errors.len(),
    ensures
        extends(task.joined(outcomes).errors, task.errors),
        task.joined(outcomes).errors.contains(outcomes[outcome].errors[error]),
{
    lemma_extends_by(task.errors, errors_of(outcomes));
    lemma_errors_of_holds(outcomes, outcome, error);
    let all = errors_of(outcomes);
    let i = choose|i: int| 0 <= i < all.len() && all[i] == outcomes[outcome].errors[error];
    assert((task.errors + all)[task.errors.len() + i] == all[i]);
}

proof fn lemma_errors_of_holds(outcomes: Seq<OutcomeView>, outcome: int, error: int)
    requires
        0 <= outcome < outcomes.len(),
        0 <= error < outcomes[outcome].errors.len(),
    ensures
        errors_of(outcomes).contains(outcomes[outcome].errors[error]),
    decreases outcomes.len(),
{
    let before = errors_of(outcomes.drop_last());
    let last = outcomes.last().errors;
    if outcome == outcomes.len() - 1 {
        assert((before + last)[before.len() + error] == last[error]);
    } else {
        lemma_errors_of_holds(outcomes.drop_last(), outcome, error);
        let wanted = outcomes[outcome].errors[error];
        let i = choose|i: int| 0 <= i < before.len() && before[i] == wanted;
        assert((before + last)[i] == wanted);
    }
}

/// However a task and its forks are scheduled, what the task hands over starts with the
/// errors that it had.
pub proof fn outcomes_lose_no_error(world: World, task: TaskView, rounds: nat)
    requires
        carried_out(world, task, rounds) is Some,
    ensures
        extends(carried_out(world, task, rounds)->Some_0.errors, task.errors),
    decreases rounds,
{
    let left = (rounds - 1) as nat;
    match task.asks() {
        Some(ask) => {
            let next = task.answered(world.answer(ask));
            tasks_forget_no_error(task, world.answer(ask));
            outcomes_lose_no_error(world, next, left);
            lemma_extends_on(
                task.errors,
                next.errors,
                carried_out(world, task, rounds)->Some_0.errors,
            );
        },
        None => match task.stage {
            TaskStageView::Fork(visit, _, items) => {
                let results = forks_carried_out(world, task, visit, items, left).map_values(
                    |outcome: Option<OutcomeView>| outcome->Some_0,
                );
                let next = task.joined(results);
                lemma_extends_by(task.errors, errors_of(results));
                outcomes_lose_no_error(world, next, left);
                lemma_extends_on(
                    task.errors,
                    next.errors,
                    carried_out(world, task, rounds)->Some_0.errors,
                );
            },
            _ => {
                lemma_extends_itself(task.errors);
            },
        },
    }
}

/// The tasks of a traversal, the directories that they entered, and the permits that are
/// given out.
pub struct Crew {
    pub tasks: Seq<TaskView>,
    pub entered: Seq<Key>,
    pub given_out: int,
}

/// What happens next to the tasks of a traversal.
pub enum Happening {
    /// A task is told something. What it is told about directories that were entered before
    /// follows from what was entered.
    Answer(int, Reply),
    /// A task forks: the task for an entry of its directory is there too.
    Fork(int, DirItem),
    /// A task is handed what its forks found.
    Join(int, Seq<OutcomeView>),
}

/// What a task is told: `reply`, or the truth about what was entered.
pub open spec fn told(world: World, crew: Crew, task: TaskView, reply: Reply) -> Reply {
    match task.asks() {
        Some(Ask::Claim { path }) => Reply::Seen(crew.entered.contains((world.identity)(path)@)),
        Some(Ask::Seen { path }) => Reply::Seen(crew.entered.contains((world.identity)(path)@)),
        _ => reply,
    }
}

/// The tasks once something happened to one of them.
pub open spec fn after(world: World, crew: Crew, happening: Happening) -> Crew {
    match happening {
        Happening::Answer(index, reply) => if 0 <= index < crew.tasks.len() {
            let task = crew.tasks[index];
            let reply = told(world, crew, task, reply);
            Crew {
                tasks: crew.tasks.update(index, task.answered(reply)),
                entered: match task.asks() {
                    Some(Ask::Claim { path }) => if crew.entered.contains(
                        (world.identity)(path)@,
                    ) {
                        crew.entered
                    } else {
                        crew.entered.push((world.identity)(path)@)
                    },
                    _ => crew.entered,
                },
                given_out: crew.given_out + permits_taken(task, reply),
            }
        } else {
            crew
        },
        Happening::Fork(index, item) => if 0 <= index < crew.tasks.len()
            && crew.tasks[index].stage is Fork {
            let task = crew.tasks[index];
            Crew { tasks: crew.tasks.push(task.fork(task.stage->Fork_0, item)), ..crew }
        } else {
            crew
        },
        Happening::Join(index, outcomes) => if 0 <= index < crew.tasks.len() {
            Crew {
                tasks: crew.tasks.update(index, crew.tasks[index].joined(outcomes)),
                ..crew
            }
        } else {
            crew
        },
    }
}

/// The tasks once one thing after the other happened.
pub open spec fn after_all(world: World, crew: Crew, happenings: Seq<Happening>) -> Crew
    decreases happenings.len(),
{
    if happenings.len() == 0 {
        crew
    } else {
        after(world, after_all(world, crew, happenings.drop_last()), happenings.last())
    }
}

/// How many permits several tasks hold together.
pub open spec fn permits_held(tasks: Seq<TaskView>) -> int
    decreases tasks.len(),
{
    if tasks.len() == 0 {
        0
    } else {
        permits_held(tasks.drop_last()) + permits_of(tasks.last())
    }
}

/// The directory that a task has entered and is not done with.
pub open spec fn inside(task: TaskView) -> Option<FsPath> {
    match task.stage {
        TaskStageView::Permit(visit, _) => Some(visit.path),
        TaskStageView::List(visit, _) => Some(visit.path),
        TaskStageView::Read(visit, _, _) => Some(visit.path),
        TaskStageView::Rules(visit, _, _) => Some(visit.path),
        TaskStageView::Fork(visit, _, _) => Some(visit.path),
        _ => None,
    }
}

/// What holds of the tasks of a traversal at any time: no directory was entered twice, and
/// who is inside a directory entered it.
pub open spec fn in_order(world: World, crew: Crew) -> bool {
    &&& crew.entered.no_duplicates()
    &&& forall|i: int|
        0 <= i < crew.tasks.len() && inside(#[trigger] crew.tasks[i]) is Some
            ==> crew.entered.contains((world.identity)(inside(crew.tasks[i])->Some_0)@)
}

proof fn lemma_permits_held_with(tasks: Seq<TaskView>, index: int, task: TaskView)
    requires
        0 <= index < tasks.len(),
    ensures
        permits_held(tasks.update(index, task)) == permits_held(tasks) + permits_of(task)
            - permits_of(tasks[index]),
    decreases tasks.len(),
{
    let changed = tasks.update(index, task);
    if index == tasks.len() - 1 {
        assert(changed.drop_last() =~= tasks.drop_last());
    } else {
        assert(changed.drop_last() =~= tasks.drop_last().update(index, task));
        lemma_permits_held_with(tasks.drop_last(), index, task);
    }
}

/// Whether no task holds a permit.
pub open spec fn no_permit_held(tasks: Seq<TaskView>) -> bool {
    forall|i: int| 0 <= i < tasks.len() ==> !(#[trigger] tasks[i]).holds_permit()
}

proof fn lemma_permits_held_nowhere(tasks: Seq<TaskView>)
    requires
        no_permit_held(tasks),
    ensures
        permits_held(tasks) == 0,
    decreases tasks.len(),
{
    if tasks.len() > 0 {
        assert(!tasks[tasks.len() - 1].holds_permit());
        assert forall|i: int| 0 <= i < tasks.drop_last().len() implies !(
        #[trigger] tasks.drop_last()[i]).holds_permit() by {
            assert(!tasks[i].holds_permit());
        }
        lemma_permits_held_nowhere(tasks.drop_last());
    }
}

proof fn lemma_permits_balance(world: World, crew: Crew, happening: Happening)
    ensures
        ({
            let next = after(world, crew, happening);
            next.given_out - permits_held(next.tasks) == crew.given_out - permits_held(crew.tasks)
        }),
{
    let next = after(world, crew, happening);
    match happening {
        Happening::Answer(index, reply) => {
            if 0 <= index < crew.tasks.len() {
                let task = crew.tasks[index];
                let reply = told(world, crew, task, reply);
                lemma_permits_held_with(crew.tasks, index, task.answered(reply));
                permits_are_accounted_for(task, reply);
            }
        },
        Happening::Fork(index, item) => {
            if 0 <= index < crew.tasks.len() && crew.tasks[index].stage is Fork {
                assert(next.tasks.drop_last() =~= crew.tasks);
                no_permit_is_held_while_waiting(crew.tasks[index], item, Seq::empty());
            }
        },
        Happening::Join(index, outcomes) => {
            if 0 <= index < crew.tasks.len() {
                lemma_permits_held_with(crew.tasks, index, crew.tasks[index].joined(outcomes));
            }
        },
    }
}

proof fn lemma_still_in_order(world: World, crew: Crew, happening: Happening)
    requires
        in_order(world, crew),
    ensures
        in_order(world, after(world, crew, happening)),
{
    let next = after(world, crew, happening);
    assert forall|key: Key| crew.entered.contains(key) implies next.entered.contains(key) by {
        let i = choose|i: int| 0 <= i < crew.entered.len() && crew.entered[i] == key;
        assert(next.entered[i] == key);
    }
    if let Happening::Answer(index, reply) = happening {
        if 0 <= index < crew.tasks.len() {
            let task = crew.tasks[index];
            let answered = task.answered(told(world, crew, task, reply));
            if task.stage is Claim {
                let key = (world.identity)(task.stage->Claim_0.path)@;
                if !crew.entered.contains(key) {
                    assert(next.entered.last() == key);
                }
            } else {
                assert(inside(answered) is Some ==> inside(task) == inside(answered));
            }
        }
    }
}

/// The tasks at the start of a traversal: the one for its root.
pub open spec fn root_crew(
    config: Config,
    root: FsPath,
    root_device: Option<u64>,
    ignore: IgnoreView,
) -> Crew {
    Crew {
        tasks: seq![root_task(config, root, root_device, ignore)],
        entered: Seq::empty(),
        given_out: 0,
    }
}

proof fn lemma_always_in_order(
    world: World,
    config: Config,
    root: FsPath,
    root_device: Option<u64>,
    ignore: IgnoreView,
    happenings: Seq<Happening>,
)
    ensures
        in_order(
            world,
            after_all(world, root_crew(config, root, root_device, ignore), happenings),
        ),
    decreases happenings.len(),
{
    let start = root_crew(config, root, root_device, ignore);
    if happenings.len() > 0 {
        lemma_always_in_order(world, config, root, root_device, ignore, happenings.drop_last());
        lemma_still_in_order(
            world,
            after_all(world, start, happenings.drop_last()),
            happenings.last(),
        );
    }
}

/// However the tasks of a traversal are scheduled, no directory is entered twice, and only
/// directories that were entered are read.
pub proof fn no_task_enters_a_directory_twice(
    world: World,
    config: Config,
    root: FsPath,
    root_device: Option<u64>,
    ignore: IgnoreView,
    happenings: Seq<Happening>,
)
    ensures
        ({
            let crew = after_all(world, root_crew(config, root, root_device, ignore), happenings);
            &&& crew.entered.no_duplicates()
            &&& forall|i: int|
                0 <= i < crew.tasks.len() && (#[trigger] crew.tasks[i]).stage is List
                    ==> crew.entered.contains(
                    (world.identity)(crew.tasks[i].stage->List_0.path)@,
                )
        }),
{
    lemma_always_in_order(world, config, root, root_device, ignore, happenings);
    let crew = after_all(world, root_crew(config, root, root_device, ignore), happenings);
    assert forall|i: int|
        0 <= i < crew.tasks.len() && (#[trigger] crew.tasks[i]).stage
            is List implies crew.entered.contains(
        (world.identity)(crew.tasks[i].stage->List_0.path)@,
    ) by {
        assert(inside(crew.tasks[i]) is Some);
    }
}

/// However the tasks of a traversal are scheduled, whoever comes to a directory while a task
/// is inside it is told that it was entered before. So it is with a link below a directory
/// that leads back to it: the task for the directory waits for its forks.
pub proof fn whoever_comes_back_is_told(
    world: World,
    config: Config,
    root: FsPath,
    root_device: Option<u64>,
    ignore: IgnoreView,
    happenings: Seq<Happening>,
    above: int,
    task: TaskView,
    reply: Reply,
)
    requires
        ({
            let crew = after_all(world, root_crew(config, root, root_device, ignore), happenings);
            &&& 0 <= above < crew.tasks.len()
            &&& inside(crew.tasks[above]) is Some
            &&& match task.asks() {
                Some(Ask::Claim { path }) => (world.identity)(path)@ == (world.identity)(
                    inside(crew.tasks[above])->Some_0,
                )@,
                Some(Ask::Seen { path }) => (world.identity)(path)@ == (world.identity)(
                    inside(crew.tasks[above])->Some_0,
                )@,
                _ => false,
            }
        }),
    ensures
        ({
            let crew = after_all(world, root_crew(config, root, root_device, ignore), happenings);
            told(world, crew, task, reply) == Reply::Seen(true)
        }),
{
    lemma_always_in_order(world, config, root, root_device, ignore, happenings);
}

/// However tasks and their forks are scheduled, the permits that they do not hold stay where
/// they are. So once every task is done or waits for its forks, all permits are back: as many
/// are given out as before any of the tasks began.
pub proof fn all_permits_come_back(world: World, crew: Crew, happenings: Seq<Happening>)
    ensures
        ({
            let later = after_all(world, crew, happenings);
            &&& later.given_out - permits_held(later.tasks) == crew.given_out - permits_held(
                crew.tasks,
            )
            &&& no_permit_held(crew.tasks) && no_permit_held(later.tasks) ==> later.given_out
                == crew.given_out
        }),
    decreases happenings.len(),
{
    let later = after_all(world, crew, happenings);
    if happenings.len() > 0 {
        let before = after_all(world, crew, happenings.drop_last());
        all_permits_come_back(world, crew, happenings.drop_last());
        lemma_permits_balance(world, before, happenings.last());
    }
    if no_permit_held(crew.tasks) && no_permit_held(later.tasks) {
        lemma_permits_held_nowhere(crew.tasks);
        lemma_permits_held_nowhere(later.tasks);
    }
}

/// However the tasks of a traversal go on, no directory that was entered is forgotten, and no
/// error that a task met.
pub proof fn tasks_forget_nothing(world: World, crew: Crew, happenings: Seq<Happening>)
    ensures
        ({
            let later = after_all(world, crew, happenings);
            &&& extends(later.entered, crew.entered)
            &&& crew.tasks.len() <= later.tasks.len()
            &&& forall|i: int|
                0 <= i < crew.tasks.len() ==> extends(
                    (#[trigger] later.tasks[i]).errors,
                    crew.tasks[i].errors,
                )
        }),
    decreases happenings.len(),
{
    let later = after_all(world, crew, happenings);
    lemma_extends_itself(crew.entered);
    assert forall|i: int| 0 <= i < crew.tasks.len() implies extends(
        (#[trigger] crew.tasks[i]).errors,
        crew.tasks[i].errors,
    ) by {
        lemma_extends_itself(crew.tasks[i].errors);
    }
    if happenings.len() > 0 {
        let before = after_all(world, crew, happenings.drop_last());
        tasks_forget_nothing(world, crew, happenings.drop_last());
        lemma_extends_itself(before.entered);
        if later.entered != before.entered {
            lemma_extends_push(before.entered, later.entered.last());
            assert(later.entered =~= before.entered.push(later.entered.last()));
        }
        lemma_extends_on(crew.entered, before.entered, later.entered);
        assert forall|i: int| 0 <= i < crew.tasks.len() implies extends(
            (#[trigger] later.tasks[i]).errors,
            crew.tasks[i].errors,
        ) by {
            let task = before.tasks[i];
            lemma_extends_itself(task.errors);
            match happenings.last() {
                Happening::Answer(_, reply) => {
                    tasks_forget_no_error(task, told(world, before, task, reply));
                },
                Happening::Fork(_, _) => {},
                Happening::Join(_, outcomes) => {
                    lemma_extends_by(task.errors, errors_of(outcomes));
                },
            }
            lemma_extends_on(crew.tasks[i].errors, task.errors, later.tasks[i].errors);
        }
    }
}

} // verus!
