//! What holds of walks, whatever they are told.

use crate::entry::{as_recursive, EntryView};
use crate::error::TreeError;
use crate::protocol::Reply;
use crate::streaming::{StreamStageView, StreamView};
use crate::walk::{lemma_advance_decreases, WalkView};
use vstd::prelude::*;

verus! {

/// Whether one sequence starts with another.
pub open spec fn extends<T>(longer: Seq<T>, shorter: Seq<T>) -> bool {
    shorter.len() <= longer.len() && longer.take(shorter.len() as int) == shorter
}

/// A sequence starts with itself.
pub proof fn lemma_extends_itself<T>(items: Seq<T>)
    ensures
        extends(items, items),
{
    assert(items.take(items.len() as int) =~= items);
}

/// A sequence with more behind it starts with it.
pub proof fn lemma_extends_by<T>(items: Seq<T>, more: Seq<T>)
    ensures
        extends(items + more, items),
{
    assert((items + more).take(items.len() as int) =~= items);
}

/// A sequence with one element more starts with it.
pub proof fn lemma_extends_push<T>(items: Seq<T>, item: T)
    ensures
        extends(items.push(item), items),
{
    assert(items.push(item).take(items.len() as int) =~= items);
}

/// Starting with a sequence is transitive.
pub proof fn lemma_extends_on<T>(first: Seq<T>, second: Seq<T>, third: Seq<T>)
    requires
        extends(second, first),
        extends(third, second),
    ensures
        extends(third, first),
{
    assert(third.take(first.len() as int) =~= second.take(first.len() as int));
}

/// What a walk met before it has still met afterwards.
pub open spec fn walk_keeps(before: WalkView, after: WalkView) -> bool {
    &&& extends(after.core.errors, before.core.errors)
    &&& before.core.visited.subset_of(after.core.visited)
}

proof fn lemma_keeps_on(first: WalkView, second: WalkView, third: WalkView)
    requires
        walk_keeps(first, second),
        walk_keeps(second, third),
    ensures
        walk_keeps(first, third),
{
    lemma_extends_on(first.core.errors, second.core.errors, third.core.errors);
}

proof fn lemma_answer_keeps(walk: WalkView, reply: Reply)
    ensures
        walk_keeps(walk, walk.answered(reply)),
{
    let errors = walk.core.errors;
    lemma_extends_itself(errors);
    assert forall|error: TreeError| #[trigger] extends(errors.push(error), errors) by {
        lemma_extends_push(errors, error);
    }
    assert forall|first: TreeError, second: TreeError| #[trigger]
        extends(errors.push(first).push(second), errors) by {
        lemma_extends_push(errors, first);
        lemma_extends_push(errors.push(first), second);
        lemma_extends_on(errors, errors.push(first), errors.push(first).push(second));
    }
}

proof fn lemma_settling_keeps(walk: WalkView)
    ensures
        walk_keeps(walk, walk.settled()),
    decreases walk.workload(),
{
    lemma_extends_itself(walk.core.errors);
    if walk.is_busy() {
        lemma_advance_decreases(walk);
        let next = walk.advance();
        let errors = walk.core.errors;
        assert forall|error: TreeError| #[trigger] extends(errors.push(error), errors) by {
            lemma_extends_push(errors, error);
        }
        assert(walk_keeps(walk, next));
        lemma_settling_keeps(next);
        lemma_keeps_on(walk, next, next.settled());
    }
}

/// Whatever an ordered walk is told, it forgets no error that it met and no directory that
/// it entered.
pub proof fn ordered_walk_forgets_nothing(walk: WalkView, reply: Reply)
    ensures
        extends(walk.answered(reply).settled().core.errors, walk.core.errors),
        walk.core.visited.subset_of(walk.answered(reply).settled().core.visited),
{
    let told = walk.answered(reply);
    lemma_answer_keeps(walk, reply);
    lemma_settling_keeps(told);
    lemma_keeps_on(walk, told, told.settled());
}

proof fn lemma_settling_reads_nothing(walk: WalkView)
    ensures
        walk.settled().stage is List ==> walk.settled() == walk,
    decreases walk.workload(),
{
    if walk.is_busy() {
        lemma_advance_decreases(walk);
        lemma_settling_reads_nothing(walk.advance());
    }
}

/// Whether a walk goes on to read a directory when it is told something.
pub open spec fn reads_on(walk: WalkView, reply: Reply) -> bool {
    !(walk.stage is List) && walk.answered(reply).settled().stage is List
}

/// An ordered walk reads a directory only if it has not entered it before, and from then on
/// it has.
pub proof fn reading_means_entering(walk: WalkView, reply: Reply)
    requires
        reads_on(walk, reply),
    ensures
        reply is Identity,
        !walk.core.visited.contains(reply->Identity_0@),
        walk.answered(reply).settled().core.visited == walk.core.visited.insert(
            reply->Identity_0@,
        ),
{
    lemma_settling_reads_nothing(walk.answered(reply));
}

/// A walk that was told one thing after the other.
pub open spec fn told_all(walk: WalkView, replies: Seq<Reply>) -> WalkView
    decreases replies.len(),
{
    if replies.len() == 0 {
        walk
    } else {
        told_all(walk, replies.drop_last()).answered(replies.last()).settled()
    }
}

proof fn lemma_told_all_keeps(walk: WalkView, replies: Seq<Reply>, count: int)
    requires
        0 <= count <= replies.len(),
    ensures
        walk_keeps(told_all(walk, replies.take(count)), told_all(walk, replies)),
    decreases replies.len(),
{
    if count == replies.len() {
        assert(replies.take(count) =~= replies);
        lemma_extends_itself(told_all(walk, replies).core.errors);
    } else {
        let before = replies.drop_last();
        assert(before.take(count) =~= replies.take(count));
        lemma_told_all_keeps(walk, before, count);
        ordered_walk_forgets_nothing(told_all(walk, before), replies.last());
        lemma_keeps_on(
            told_all(walk, replies.take(count)),
            told_all(walk, before),
            told_all(walk, replies),
        );
    }
}

/// Whatever an ordered walk is told, it never reads a directory twice: cycles end.
pub proof fn no_directory_is_read_twice(
    walk: WalkView,
    replies: Seq<Reply>,
    first: int,
    second: int,
)
    requires
        0 <= first < second < replies.len(),
        reads_on(told_all(walk, replies.take(first)), replies[first]),
        reads_on(told_all(walk, replies.take(second)), replies[second]),
    ensures
        replies[first]->Identity_0@ != replies[second]->Identity_0@,
{
    reading_means_entering(told_all(walk, replies.take(first)), replies[first]);
    reading_means_entering(told_all(walk, replies.take(second)), replies[second]);
    let until = replies.take(second);
    let entered = replies.take(first + 1);
    assert(entered.drop_last() =~= replies.take(first));
    assert(entered.last() == replies[first]);
    assert(until.take(first + 1) =~= entered);
    lemma_told_all_keeps(walk, until, first + 1);
    assert(told_all(walk, entered).core.visited.contains(replies[first]->Identity_0@));
}

/// What a streaming walk met and wrote before it has still met and written afterwards.
pub open spec fn stream_keeps(before: StreamView, after: StreamView) -> bool {
    &&& extends(after.core.errors, before.core.errors)
    &&& extends(after.core.written, before.core.written)
    &&& before.core.state.visited.subset_of(after.core.state.visited)
    &&& before.core.state.truncated ==> after.core.state.truncated
}

proof fn lemma_stream_keeps_on(first: StreamView, second: StreamView, third: StreamView)
    requires
        stream_keeps(first, second),
        stream_keeps(second, third),
    ensures
        stream_keeps(first, third),
{
    lemma_extends_on(first.core.errors, second.core.errors, third.core.errors);
    lemma_extends_on(first.core.written, second.core.written, third.core.written);
}

proof fn lemma_stream_answer_keeps(walk: StreamView, reply: Reply)
    ensures
        stream_keeps(walk, walk.answered(reply)),
{
    let errors = walk.core.errors;
    let written = walk.core.written;
    lemma_extends_itself(errors);
    lemma_extends_itself(written);
    assert forall|error: TreeError| #[trigger] extends(errors.push(error), errors) by {
        lemma_extends_push(errors, error);
    }
    assert forall|more: Seq<TreeError>| #[trigger] extends(errors + more, errors) by {
        lemma_extends_by(errors, more);
    }
    assert forall|entry: EntryView| #[trigger] extends(written.push(entry), written) by {
        lemma_extends_push(written, entry);
    }
}

proof fn lemma_stream_settling_keeps(walk: StreamView)
    ensures
        stream_keeps(walk, walk.settled()),
    decreases walk.workload(),
{
    let errors = walk.core.errors;
    lemma_extends_itself(errors);
    lemma_extends_itself(walk.core.written);
    if walk.is_busy() {
        let next = walk.advance();
        assert forall|error: TreeError| #[trigger] extends(errors.push(error), errors) by {
            lemma_extends_push(errors, error);
        }
        assert(stream_keeps(walk, next));
        lemma_stream_settling_keeps(next);
        lemma_stream_keeps_on(walk, next, next.settled());
    }
}

/// Whatever a streaming walk is told, it forgets no error that it met, no directory that it
/// came to and no entry that it wrote, and output that was cut short stays so.
pub proof fn streaming_walk_forgets_nothing(walk: StreamView, reply: Reply)
    ensures
        extends(walk.answered(reply).settled().core.errors, walk.core.errors),
        extends(walk.answered(reply).settled().core.written, walk.core.written),
        walk.core.state.visited.subset_of(walk.answered(reply).settled().core.state.visited),
        walk.core.state.truncated ==> walk.answered(reply).settled().core.state.truncated,
{
    let told = walk.answered(reply);
    lemma_stream_answer_keeps(walk, reply);
    lemma_stream_settling_keeps(told);
    lemma_stream_keeps_on(walk, told, told.settled());
}

/// A streaming walk that comes to a directory for the second time writes its entry marked as
/// recursive and does not descend; at the first time the directory is noted.
pub proof fn repeated_directories_are_marked(walk: StreamView, reply: Reply)
    requires
        walk.stage is Identity,
        reply is Identity,
    ensures
        ({
            let item = walk.stage->Identity_0;
            let entry = walk.stage->Identity_1;
            let key = reply->Identity_0@;
            let told = walk.answered(reply);
            &&& walk.core.state.visited.contains(key) ==> told == walk.core.at(
                StreamStageView::Write(item, as_recursive(entry), false),
            )
            &&& !walk.core.state.visited.contains(key) ==> {
                &&& told.core.state.visited == walk.core.state.visited.insert(key)
                &&& told.stage == if walk.core.state.root_device is Some {
                    StreamStageView::Volume(item, entry)
                } else {
                    StreamStageView::Write(item, entry, true)
                }
            }
            &&& told.core.state.visited.contains(key)
        }),
{
}

} // verus!
