//! Traversals as machines that run on answers, and where they get to.

use crate::protocol::{Ask, Reply, World};
use vstd::prelude::*;

verus! {

/// The states of a traversal: what it asks for, and how it goes on.
pub trait Machine: Sized {
    /// What is asked for.
    spec fn wanted(self) -> Option<Ask>;

    /// Whether it goes on without an answer.
    spec fn moving(self) -> bool;

    /// One step of a moving machine.
    spec fn moved(self) -> Self;

    /// The machine once it has its answer.
    spec fn told(self, reply: Reply) -> Self;

    /// The machine once it needs an answer or is over.
    spec fn rested(self) -> Self;

    /// A machine that asks does not move, and one comes to rest by moving.
    proof fn rest(self)
        ensures
            self.wanted() is Some ==> !self.moving(),
            self.moving() ==> self.rested() == self.moved().rested(),
            !self.moving() ==> self.rested() == self,
    ;
}

/// One step: a machine goes on by itself, or with the answer that it asks for.
pub open spec fn step<M: Machine>(world: World, from: M) -> M {
    match from.wanted() {
        Some(ask) => from.told(world.answer(ask)),
        None => if from.moving() {
            from.moved()
        } else {
            from
        },
    }
}

/// A number of steps.
pub open spec fn run<M: Machine>(world: World, from: M, steps: nat) -> M
    decreases steps,
{
    if steps == 0 {
        from
    } else {
        run(world, step(world, from), (steps - 1) as nat)
    }
}

/// Whether a machine comes from one state to another.
pub open spec fn leads<M: Machine>(world: World, from: M, to: M) -> bool {
    exists|steps: nat| #[trigger] run(world, from, steps) == to
}

/// No step leads nowhere else.
pub proof fn lemma_leads_here<M: Machine>(world: World, here: M)
    ensures
        leads(world, here, here),
{
    assert(run(world, here, 0) == here);
}

/// One step more at the start.
pub proof fn lemma_leads_next<M: Machine>(world: World, from: M, to: M)
    requires
        leads(world, step(world, from), to),
    ensures
        leads(world, from, to),
{
    let steps = choose|steps: nat| #[trigger] run(world, step(world, from), steps) == to;
    assert(run(world, from, steps + 1) == to);
}

/// Two stretches in a row.
pub proof fn lemma_leads_on<M: Machine>(world: World, from: M, via: M, to: M)
    requires
        leads(world, from, via),
        leads(world, via, to),
    ensures
        leads(world, from, to),
{
    let steps = choose|steps: nat| #[trigger] run(world, from, steps) == via;
    lemma_leads_after(world, from, steps, to);
}

proof fn lemma_leads_after<M: Machine>(world: World, from: M, steps: nat, to: M)
    requires
        leads(world, run(world, from, steps), to),
    ensures
        leads(world, from, to),
    decreases steps,
{
    if steps > 0 {
        lemma_leads_after(world, step(world, from), (steps - 1) as nat, to);
        lemma_leads_next(world, from, to);
    }
}

/// A machine whose driver has given a number of answers.
pub open spec fn driven<M: Machine>(world: World, from: M, answers: nat) -> M
    decreases answers,
{
    if answers == 0 {
        from
    } else {
        match from.wanted() {
            Some(ask) => driven(world, from.told(world.answer(ask)).rested(), (answers - 1) as nat),
            None => from,
        }
    }
}

/// Whether a driver brings a machine from one state to another.
pub open spec fn drives<M: Machine>(world: World, from: M, to: M) -> bool {
    exists|answers: nat| #[trigger] driven(world, from, answers) == to
}

/// Where a machine comes to a halt by steps, a driver brings it.
pub proof fn lemma_drives<M: Machine>(world: World, from: M, to: M)
    requires
        leads(world, from, to),
        to.wanted() is None,
        !to.moving(),
    ensures
        drives(world, from.rested(), to),
{
    let steps = choose|steps: nat| #[trigger] run(world, from, steps) == to;
    lemma_drives_after(world, from, steps);
}

proof fn lemma_drives_after<M: Machine>(world: World, from: M, steps: nat)
    requires
        run(world, from, steps).wanted() is None,
        !run(world, from, steps).moving(),
    ensures
        drives(world, from.rested(), run(world, from, steps)),
    decreases steps,
{
    let to = run(world, from, steps);
    from.rest();
    if steps == 0 {
        assert(driven(world, from.rested(), 0) == to);
    } else {
        let next = step(world, from);
        lemma_drives_after(world, next, (steps - 1) as nat);
        let answers = choose|answers: nat| #[trigger] driven(world, next.rested(), answers) == to;
        if from.wanted() is Some {
            assert(driven(world, from.rested(), answers + 1) == to);
        } else {
            assert(driven(world, from.rested(), answers) == to);
        }
    }
}

} // verus!
