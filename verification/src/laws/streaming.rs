//! What holds of a streaming walk: of the directories that it reads, whatever it is told, and
//! of a level that it is done with.

use crate::config::Config;
use crate::error::TreeError;
use crate::ignoring::IgnoreView;
use crate::laws::output::a_level_only_adds;
use crate::laws::walking::extends;
use crate::machine::leads;
use crate::ordered_model::Scene;
use crate::path::FsPath;
use crate::protocol::Reply;
use crate::streaming::{
    stream_start, LevelView, StateView, StreamCoreView, StreamStageView, StreamView,
};
use crate::streaming_model::{fits, lemma_level, output_of, returned, Halt};
use crate::visited::Key;
use vstd::prelude::*;

verus! {

/// A streaming walk, the directory whose key it was told last with that key, and so the
/// directories that it went on to read.
pub struct Trail {
    pub walk: StreamView,
    pub told: Option<(FsPath, Key)>,
    pub read: Seq<(FsPath, Key)>,
}

/// The trail once the walk was told something.
pub open spec fn followed(trail: Trail, reply: Reply) -> Trail {
    let before = trail.walk;
    let walk = before.answered(reply).settled();
    let told = match (before.stage, reply) {
        (StreamStageView::RootIdentity(level), Reply::Identity(key)) => Some((level.path, key@)),
        (StreamStageView::Identity(_, entry), Reply::Identity(key)) => Some((entry.path, key@)),
        _ => trail.told,
    };
    Trail {
        walk,
        told,
        read: if before.stage !is List && walk.stage is List {
            trail.read.push(told->Some_0)
        } else {
            trail.read
        },
    }
}

/// The trail once the walk was told one thing after the other.
pub open spec fn followed_all(trail: Trail, replies: Seq<Reply>) -> Trail
    decreases replies.len(),
{
    if replies.len() == 0 {
        trail
    } else {
        followed(followed_all(trail, replies.drop_last()), replies.last())
    }
}

/// Whether a directory was read.
pub open spec fn was_read(read: Seq<(FsPath, Key)>, key: Key) -> bool {
    exists|i: int| 0 <= i < read.len() && (#[trigger] read[i]).1 == key
}

/// Whether no directory was read twice.
pub open spec fn read_once(read: Seq<(FsPath, Key)>) -> bool {
    forall|i: int, j: int|
        0 <= i < j < read.len() ==> (#[trigger] read[i]).1 != (#[trigger] read[j]).1
}

/// Whether the walk is on its way into a directory that it was just told about, has noted it,
/// and has not read it.
spec fn heads_for(trail: Trail, path: FsPath) -> bool {
    &&& trail.told is Some
    &&& trail.told->Some_0.0 == path
    &&& trail.walk.core.state.visited.contains(trail.told->Some_0.1)
    &&& !was_read(trail.read, trail.told->Some_0.1)
}

spec fn is_sound(trail: Trail) -> bool {
    &&& read_once(trail.read)
    &&& forall|i: int|
        0 <= i < trail.read.len() ==> trail.walk.core.state.visited.contains(
            (#[trigger] trail.read[i]).1,
        )
    &&& match trail.walk.stage {
        StreamStageView::RootStat(_) => trail.read.len() == 0,
        StreamStageView::RootWrite(_, _) => trail.read.len() == 0,
        StreamStageView::RootIdentity(_) => trail.read.len() == 0,
        StreamStageView::Volume(_, entry) => heads_for(trail, entry.path),
        StreamStageView::Write(_, entry, true) => heads_for(trail, entry.path),
        StreamStageView::Rules(level) => heads_for(trail, level.path),
        StreamStageView::List(level) => {
            &&& trail.told is Some
            &&& trail.told->Some_0.0 == level.path
            &&& trail.read.len() > 0
            &&& trail.read.last() == trail.told->Some_0
        },
        StreamStageView::Enter(_) => false,
        _ => true,
    }
}

/// Whether a walk goes on inside or behind a level.
spec fn goes_on_by_itself(walk: StreamView) -> bool {
    ||| walk.stage is Next
    ||| walk.stage is StreamNext
    ||| walk.stage is Return
    ||| walk.stage is Unwind
}

/// A walk that goes on inside or behind a level comes to no directory before it is told
/// something.
proof fn lemma_settling_enters_nothing(walk: StreamView)
    requires
        goes_on_by_itself(walk),
    ensures
        ({
            let after = walk.settled();
            &&& after.core.state.visited == walk.core.state.visited
            &&& {
                ||| after.stage is Next
                ||| after.stage is Describe
                ||| after.stage is StreamNext
                ||| after.stage is StreamWrite
                ||| after.stage is Done
                ||| after.stage is Failed
            }
        }),
    decreases walk.workload(),
{
    if walk.is_busy() {
        let next = walk.advance();
        if goes_on_by_itself(next) {
            lemma_settling_enters_nothing(next);
        } else {
            assert(next.settled() == next);
        }
    }
}

/// A walk that starts with a level reads its directory, or does not, but does not come to
/// another one.
proof fn lemma_entering_settles(walk: StreamView)
    requires
        walk.stage is Enter,
    ensures
        ({
            let level = walk.stage->Enter_0;
            let after = walk.settled();
            &&& after.core.state.visited == walk.core.state.visited
            &&& {
                ||| after.stage == StreamStageView::Rules(level)
                ||| after.stage == StreamStageView::List(level)
                ||| after.stage is Next
                ||| after.stage is Describe
                ||| after.stage is StreamNext
                ||| after.stage is StreamWrite
                ||| after.stage is Done
                ||| after.stage is Failed
            }
        }),
{
    let next = walk.advance();
    assert(walk.settled() == next.settled());
    if next.stage is Return {
        lemma_settling_enters_nothing(next);
    } else {
        assert(next.settled() == next);
    }
}

proof fn lemma_read_once_more(read: Seq<(FsPath, Key)>, told: (FsPath, Key))
    requires
        read_once(read),
        !was_read(read, told.1),
    ensures
        read_once(read.push(told)),
{
    let more = read.push(told);
    assert forall|i: int, j: int| 0 <= i < j < more.len() implies (#[trigger] more[i]).1 != (
    #[trigger] more[j]).1 by {
        assert(more[i] == read[i]);
        if j < read.len() {
            assert(more[j] == read[j]);
        }
    }
}

proof fn lemma_stays_sound(trail: Trail, reply: Reply)
    requires
        is_sound(trail),
    ensures
        is_sound(followed(trail, reply)),
{
    let before = trail.walk;
    let answered = before.answered(reply);
    let next = followed(trail, reply);
    let walk = next.walk;
    if answered.stage is Enter {
        lemma_entering_settles(answered);
        let level = answered.stage->Enter_0;
        let told = next.told->Some_0;
        assert(answered.core.state.visited.contains(told.1));
        assert(told.0 == level.path);
        assert(!was_read(trail.read, told.1));
        if walk.stage is List {
            lemma_read_once_more(trail.read, told);
        }
    } else if goes_on_by_itself(answered) {
        lemma_settling_enters_nothing(answered);
    } else {
        assert(walk == answered);
        if before.stage is Rules && walk.stage is List {
            lemma_read_once_more(trail.read, next.told->Some_0);
        }
        if before.stage is Identity && reply is Identity {
            let key = reply->Identity_0@;
            if was_read(trail.read, key) {
                let i = choose|i: int| 0 <= i < trail.read.len() && (#[trigger] trail.read[i]).1
                    == key;
                assert(before.core.state.visited.contains(trail.read[i].1));
            }
        }
    }
}

/// Whatever a streaming walk is told, it never reads a directory twice: cycles end. Before it
/// reads a directory it was told the key of that directory, and has noted it.
pub proof fn streaming_reads_no_directory_twice(
    config: Config,
    root: FsPath,
    root_device: Option<u64>,
    ignore: IgnoreView,
    replies: Seq<Reply>,
)
    ensures
        ({
            let start = stream_start(config, root, root_device, ignore);
            let trail = followed_all(
                Trail { walk: start, told: None, read: Seq::empty() },
                replies,
            );
            &&& read_once(trail.read)
            &&& forall|i: int|
                0 <= i < trail.read.len() ==> trail.walk.core.state.visited.contains(
                    (#[trigger] trail.read[i]).1,
                )
            &&& trail.walk.stage is List ==> trail.read.len() > 0 && trail.read.last().0
                == trail.walk.stage->List_0.path
        }),
{
    lemma_sound_from_the_start(config, root, root_device, ignore, replies);
}

proof fn lemma_sound_from_the_start(
    config: Config,
    root: FsPath,
    root_device: Option<u64>,
    ignore: IgnoreView,
    replies: Seq<Reply>,
)
    ensures
        is_sound(
            followed_all(
                Trail {
                    walk: stream_start(config, root, root_device, ignore),
                    told: None,
                    read: Seq::empty(),
                },
                replies,
            ),
        ),
    decreases replies.len(),
{
    if replies.len() > 0 {
        let trail = Trail {
            walk: stream_start(config, root, root_device, ignore),
            told: None,
            read: Seq::empty(),
        };
        lemma_sound_from_the_start(config, root, root_device, ignore, replies.drop_last());
        lemma_stays_sound(followed_all(trail, replies.drop_last()), replies.last());
    }
}

/// A streaming walk that is done with a level is where it was before it: in the same levels,
/// with the same ancestor flags and the same limits. It has only met and written more. That
/// is so too where it was cut short: it then goes on to leave the levels above.
pub proof fn a_level_leaves_the_rest_as_it_was(
    scene: Scene,
    core: StreamCoreView,
    level: LevelView,
)
    requires
        fits(scene, core),
    ensures
        ({
            let out = scene.level(level, core.state.ancestors, output_of(core));
            let after = returned(core, out);
            &&& leads(scene.world, core.at(StreamStageView::Enter(level)), after)
            &&& after.stage == match out.halt {
                Halt::No => StreamStageView::Return,
                Halt::Full => StreamStageView::Unwind(None),
                Halt::Failed(error) => StreamStageView::Unwind(Some(error)),
            }
            &&& after.core.config == core.config
            &&& after.core.frames == core.frames
            &&& after.core.state.ancestors == core.state.ancestors
            &&& after.core.state.max_entries == core.state.max_entries
            &&& after.core.state.root_device == core.state.root_device
            &&& after.core.state.needs_file_id == core.state.needs_file_id
            &&& after.core.state.truncated == (core.state.truncated || out.halt is Full)
            &&& extends(after.core.errors, core.errors)
            &&& extends(after.core.written, core.written)
            &&& core.state.visited.subset_of(after.core.state.visited)
            &&& core.state.count <= after.core.state.count
        }),
{
    lemma_level(scene, core, level);
    a_level_only_adds(scene, level, core.state.ancestors, output_of(core));
}

/// A streaming walk that was cut short leaves all levels above, and with each its ancestor
/// flag. Nothing else changes, and then the walk is over.
pub proof fn unwinding_ends_the_walk(core: StreamCoreView, error: Option<TreeError>)
    requires
        core.state.ancestors.len() == core.frames.len(),
    ensures
        core.at(StreamStageView::Unwind(error)).settled() == (StreamCoreView {
            frames: Seq::empty(),
            state: StateView { ancestors: Seq::empty(), ..core.state },
            ..core
        }).at(
            match error {
                Some(error) => StreamStageView::Failed(error),
                None => StreamStageView::Done,
            },
        ),
    decreases core.frames.len(),
{
    let walk = core.at(StreamStageView::Unwind(error));
    let next = core.unwind(error);
    assert(walk.settled() == next.settled());
    if core.frames.len() > 0 {
        unwinding_ends_the_walk(next.core, error);
    } else {
        assert(core.frames =~= Seq::empty());
        assert(core.state.ancestors =~= Seq::empty());
        assert(next.settled() == next);
    }
}

proof fn lemma_settling_writes_nothing(walk: StreamView)
    ensures
        walk.settled().core.written == walk.core.written,
    decreases walk.workload(),
{
    if walk.is_busy() {
        lemma_settling_writes_nothing(walk.advance());
    }
}

/// What a streaming walk takes to be written is what it handed out and was told to be written,
/// each entry once and in that order. Nothing else adds to it, and nothing is taken back.
pub proof fn the_record_is_what_was_handed_out(walk: StreamView, reply: Reply)
    ensures
        ({
            let after = walk.answered(reply).settled();
            let handed_out = walk.asks() is Some && walk.asks()->Some_0 is Write;
            let accepted = reply is Written && reply->Written_0 is Ok;
            &&& handed_out && accepted ==> after.core.written == walk.core.written.push(
                walk.asks()->Some_0->Write_entry,
            )
            &&& !(handed_out && accepted) ==> after.core.written == walk.core.written
        }),
{
    lemma_settling_writes_nothing(walk.answered(reply));
}

} // verus!
