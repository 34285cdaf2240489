//! What holds of paths: their ancestors, their place below a directory, and their bytes.

use crate::path::{
    anchor_len, ancestors_above, relative_to, rendered, resolved, starts_with, Part,
};
use vstd::prelude::*;

verus! {

proof fn lemma_anchor_is_last(path: Seq<Part>, anchored: int)
    requires
        0 <= anchored <= path.len(),
        anchored > 0 ==> path[anchored - 1] is Prefix || path[anchored - 1] is RootDir,
        forall|i: int|
            anchored <= i < path.len() ==> !((#[trigger] path[i]) is Prefix)
                && !(path[i] is RootDir),
    ensures
        anchor_len(path) == anchored,
    decreases path.len(),
{
    if path.len() > anchored {
        assert(!(path[path.len() - 1] is Prefix));
        let front = path.drop_last();
        assert forall|i: int| anchored <= i < front.len() implies !((#[trigger] front[i])
            is Prefix) && !(front[i] is RootDir) by {
            assert(front[i] == path[i]);
        }
        lemma_anchor_is_last(front, anchored);
    } else if path.len() > 0 {
        assert(path.last() == path[anchored - 1]);
    }
}

/// The ancestors of a path are all its proper prefixes that still hold its anchor, which is
/// the last prefix or root directory in it, each once, the outermost first: there are as many
/// as there are components behind the anchor, and each has one component more than the one
/// before. The last is the directory directly above.
pub proof fn every_directory_above_is_an_ancestor(path: Seq<Part>, anchored: int)
    requires
        0 <= anchored <= path.len(),
        anchored > 0 ==> path[anchored - 1] is Prefix || path[anchored - 1] is RootDir,
        forall|i: int|
            anchored <= i < path.len() ==> !((#[trigger] path[i]) is Prefix)
                && !(path[i] is RootDir),
    ensures
        ancestors_above(path).len() == path.len() - anchored,
        forall|len: int|
            anchored <= len < path.len() ==> ancestors_above(path)[len - anchored]
                == #[trigger] path.take(len),
        forall|len: int|
            anchored <= len < path.len() ==> ancestors_above(path).contains(
                #[trigger] path.take(len),
            ),
        path.len() > anchored ==> ancestors_above(path).last() == path.drop_last(),
{
    lemma_anchor_is_last(path, anchored);
    assert forall|len: int| anchored <= len < path.len() implies ancestors_above(path).contains(
        #[trigger] path.take(len),
    ) by {
        assert(ancestors_above(path)[len - anchored] == path.take(len));
    }
    if path.len() > anchored {
        assert(path.take(path.len() - 1) =~= path.drop_last());
    }
}

/// An absolute path has its anchor as first ancestor, whatever lies behind it.
pub proof fn the_anchor_is_the_first_ancestor(anchor: Part, names: Seq<Part>)
    requires
        anchor is RootDir || anchor is Prefix,
        names.len() > 0,
        forall|i: int| 0 <= i < names.len() ==> (#[trigger] names[i]) is Normal,
    ensures
        ancestors_above(seq![anchor] + names).len() == names.len(),
        ancestors_above(seq![anchor] + names)[0] == seq![anchor],
        ancestors_above(seq![anchor] + names).last() == seq![anchor] + names.drop_last(),
{
    let path = seq![anchor] + names;
    assert forall|i: int| 1 <= i < path.len() implies !((#[trigger] path[i]) is Prefix) && !(
    path[i] is RootDir) by {
        assert(path[i] == names[i - 1]);
    }
    every_directory_above_is_an_ancestor(path, 1);
    assert(path.take(1) =~= seq![anchor]);
    assert(ancestors_above(path)[1 - 1] == path.take(1));
    assert(path.drop_last() =~= seq![anchor] + names.drop_last());
}

/// A path starts with another exactly if it is the other with something behind it.
pub proof fn starting_with_means_lying_below(path: Seq<Part>, prefix: Seq<Part>)
    ensures
        starts_with(path, prefix) <==> exists|rest: Seq<Part>| path == #[trigger] (prefix + rest),
        forall|rest: Seq<Part>| starts_with(#[trigger] (prefix + rest), prefix),
{
    if starts_with(path, prefix) {
        let rest = path.skip(prefix.len() as int);
        assert(path =~= path.take(prefix.len() as int) + rest);
        assert(path == prefix + rest);
    }
    assert forall|rest: Seq<Part>| starts_with(#[trigger] (prefix + rest), prefix) by {
        assert((prefix + rest).take(prefix.len() as int) =~= prefix);
    }
}

/// Relative to a directory, a path below it is what lies behind the directory; any other path
/// stays as it is.
pub proof fn relative_paths_are_the_way_down(dir: Seq<Part>, below: Seq<Part>, other: Seq<Part>)
    ensures
        relative_to(dir + below, dir) == below,
        (forall|rest: Seq<Part>| other != #[trigger] (dir + rest)) ==> relative_to(other, dir)
            == other,
{
    assert((dir + below).take(dir.len() as int) =~= dir);
    assert((dir + below).skip(dir.len() as int) =~= below);
    starting_with_means_lying_below(other, dir);
}

/// A path below the root as it was given is resolved to the same way down from the absolute
/// form of the root; any other path stays as it is.
pub proof fn resolving_keeps_the_way_down(
    given: Seq<Part>,
    absolute: Seq<Part>,
    below: Seq<Part>,
    other: Seq<Part>,
)
    ensures
        resolved(given + below, given, absolute) == absolute + below,
        (forall|rest: Seq<Part>| other != #[trigger] (given + rest)) ==> resolved(
            other,
            given,
            absolute,
        ) == other,
{
    assert((given + below).take(given.len() as int) =~= given);
    assert((given + below).skip(given.len() as int) =~= below);
    starting_with_means_lying_below(other, given);
}

/// The bytes of one component: names and prefixes stand for themselves, the root directory is
/// a slash, and the current and the parent directory are one dot and two.
pub proof fn components_render_as_they_are_written(bytes: Seq<u8>)
    ensures
        rendered(Seq::<Part>::empty()) == Seq::<u8>::empty(),
        rendered(seq![Part::Normal(bytes)]) == bytes,
        rendered(seq![Part::Prefix(bytes)]) == bytes,
        rendered(seq![Part::RootDir]) == seq![47u8],
        rendered(seq![Part::CurDir]) == seq![46u8],
        rendered(seq![Part::ParentDir]) == seq![46u8, 46u8],
{
    let none = Seq::<Part>::empty();
    assert(rendered(none) =~= Seq::empty());
    assert(seq![Part::Normal(bytes)].drop_last() =~= none);
    assert(seq![Part::Prefix(bytes)].drop_last() =~= none);
    assert(seq![Part::RootDir].drop_last() =~= none);
    assert(seq![Part::CurDir].drop_last() =~= none);
    assert(seq![Part::ParentDir].drop_last() =~= none);
    assert(rendered(seq![Part::Normal(bytes)]) =~= bytes);
    assert(rendered(seq![Part::Prefix(bytes)]) =~= bytes);
    assert(rendered(seq![Part::RootDir]) =~= seq![47u8]);
    assert(rendered(seq![Part::CurDir]) =~= seq![46u8]);
    assert(rendered(seq![Part::ParentDir]) =~= seq![46u8, 46u8]);
}

/// A component more is rendered behind the path, with a slash between them unless the path is
/// empty or ends with its anchor.
pub proof fn components_are_joined_by_slashes(path: Seq<Part>, part: Part)
    ensures
        path.len() == 0 ==> rendered(path.push(part)) == rendered(seq![part]),
        path.len() > 0 && (path.last() is RootDir || path.last() is Prefix) ==> rendered(
            path.push(part),
        ) == rendered(path) + rendered(seq![part]),
        path.len() > 0 && !(path.last() is RootDir) && !(path.last() is Prefix) ==> rendered(
            path.push(part),
        ) == rendered(path) + seq![47u8] + rendered(seq![part]),
{
    assert(path.push(part).drop_last() =~= path);
    assert(seq![part].drop_last() =~= Seq::empty());
    assert(rendered(seq![part].drop_last()) =~= Seq::empty());
    assert(rendered(seq![part]) =~= part.bytes());
    if path.len() == 0 {
        assert(rendered(path) =~= Seq::empty());
        assert(rendered(path.push(part)) =~= part.bytes());
    }
}

} // verus!
