//! What holds of ignore rules.

use crate::ignoring::{
    ignored_by_lines, line_verdicts, matcher_root, rules_in, rules_on, IgnoreFiles, IgnoreView,
    LayerView, OriginView,
};
use crate::path::{
    anchor_len, ancestors_above, relative_to, rendered, resolved, starts_with, Part,
};
use vstd::prelude::*;

verus! {

/// Without rules in force nothing is ignored.
pub proof fn disabled_rules_ignore_nothing(ignore: IgnoreView, path: Seq<Part>, is_dir: bool)
    requires
        !ignore.enabled,
    ensures
        !ignore.ignores(path, is_dir),
{
}

/// A layer more adds what it ignores to what is ignored.
proof fn lemma_layer_adds(
    ignore: IgnoreView,
    dir: Seq<Part>,
    rules: Option<Set<(Seq<u8>, bool)>>,
    origin: Option<OriginView>,
    path: Seq<Part>,
    is_dir: bool,
)
    ensures
        ignore.layered(dir, rules, origin).ignores(path, is_dir) == (ignore.ignores(path, is_dir)
            || (ignore.enabled && rules is Some && LayerView {
            root: dir,
            ignored: rules->Some_0,
            origin,
        }.ignores(path, is_dir))),
{
    let layered = ignore.layered(dir, rules, origin);
    if ignore.enabled && rules is Some {
        let added = LayerView { root: dir, ignored: rules->Some_0, origin };
        let top = ignore.layers.len() as int;
        assert(layered.layers[top] == added);
        assert forall|i: int| 0 <= i < top implies layered.layers[i] == ignore.layers[i] by {}
        if ignore.ignores(path, is_dir) {
            let i = choose|i: int|
                0 <= i < ignore.layers.len() && #[trigger] ignore.layers[i].ignores(path, is_dir);
            assert(layered.layers[i].ignores(path, is_dir));
        }
        if added.ignores(path, is_dir) {
            assert(layered.layers[top].ignores(path, is_dir));
        }
        if layered.ignores(path, is_dir) {
            let i = choose|i: int|
                0 <= i < layered.layers.len() && #[trigger] layered.layers[i].ignores(
                    path,
                    is_dir,
                );
            if i < top {
                assert(ignore.layers[i].ignores(path, is_dir));
            }
        }
    }
}

/// The rules of a further directory add to what is ignored: what is ignored afterwards was
/// ignored before or is ignored by the new rules.
pub proof fn rules_add_up(
    ignore: IgnoreView,
    dir: Seq<Part>,
    rules: Option<Set<(Seq<u8>, bool)>>,
    path: Seq<Part>,
    is_dir: bool,
)
    ensures
        ignore.pushed(dir, rules).ignores(path, is_dir) == (ignore.ignores(path, is_dir) || (
        ignore.enabled && rules is Some && rules->Some_0.contains(
            (rendered(relative_to(path, dir)), is_dir),
        ))),
{
    lemma_layer_adds(ignore, dir, rules, None, path, is_dir);
}

/// Putting the rules of a directory in force twice is the same as once.
pub proof fn rules_count_once(
    ignore: IgnoreView,
    dir: Seq<Part>,
    rules: Option<Set<(Seq<u8>, bool)>>,
    path: Seq<Part>,
    is_dir: bool,
)
    ensures
        ignore.pushed(dir, rules).pushed(dir, rules).ignores(path, is_dir) == ignore.pushed(
            dir,
            rules,
        ).ignores(path, is_dir),
{
    rules_add_up(ignore, dir, rules, path, is_dir);
    rules_add_up(ignore.pushed(dir, rules), dir, rules, path, is_dir);
}

/// A directory without rules changes nothing.
pub proof fn no_rules_change_nothing(
    ignore: IgnoreView,
    dir: Seq<Part>,
    files: IgnoreFiles,
    path: Seq<Part>,
    is_dir: bool,
)
    requires
        rules_on(files.lines()).len() == 0,
    ensures
        ignore.pushed(dir, rules_in(dir, files)).ignores(path, is_dir) == ignore.ignores(
            path,
            is_dir,
        ),
{
    lemma_no_rules_ignore_nothing(matcher_root(rendered(dir)), files.lines());
    rules_add_up(ignore, dir, rules_in(dir, files), path, is_dir);
}

proof fn lemma_no_rules_ignore_nothing(root: Seq<u8>, lines: Seq<Seq<char>>)
    requires
        rules_on(lines).len() == 0,
    ensures
        ignored_by_lines(root, lines) == Set::<(Seq<u8>, bool)>::empty(),
    decreases lines.len(),
{
    if lines.len() > 0 {
        lemma_no_rules_ignore_nothing(root, lines.drop_last());
        assert(ignored_by_lines(root, lines) =~= Set::empty());
    }
}

/// Whether the rules of some ancestor of the root ignore a path, taken relative to that
/// ancestor.
pub open spec fn ignored_from_above(
    origin: OriginView,
    dirs: Seq<Seq<Part>>,
    rules: Seq<Option<Set<(Seq<u8>, bool)>>>,
    path: Seq<Part>,
    is_dir: bool,
) -> bool {
    exists|i: int|
        0 <= i < dirs.len() && (#[trigger] rules[i]) is Some && rules[i]->Some_0.contains(
            (
                rendered(relative_to(resolved(path, origin.given, origin.absolute), dirs[i])),
                is_dir,
            ),
        )
}

/// Seeding puts the rules of every ancestor of the root in force: a path is ignored if it
/// was before, or if the rules of some ancestor ignore it relative to that ancestor.
pub proof fn seeding_applies_every_ancestor(
    ignore: IgnoreView,
    origin: OriginView,
    dirs: Seq<Seq<Part>>,
    rules: Seq<Option<Set<(Seq<u8>, bool)>>>,
    path: Seq<Part>,
    is_dir: bool,
)
    requires
        dirs.len() == rules.len(),
    ensures
        ignore.seeded(origin, dirs, rules).enabled == ignore.enabled,
        ignore.seeded(origin, dirs, rules).ignores(path, is_dir) == (ignore.ignores(path, is_dir)
            || (ignore.enabled && ignored_from_above(origin, dirs, rules, path, is_dir))),
    decreases dirs.len(),
{
    if dirs.len() > 0 {
        let front = dirs.drop_last();
        let fewer = rules.drop_last();
        let last = dirs.len() - 1;
        let target = resolved(path, origin.given, origin.absolute);
        seeding_applies_every_ancestor(ignore, origin, front, fewer, path, is_dir);
        lemma_layer_adds(
            ignore.seeded(origin, front, fewer),
            dirs.last(),
            rules.last(),
            Some(origin),
            path,
            is_dir,
        );
        assert(rules.last() == rules[last]);
        assert forall|i: int| 0 <= i < last implies fewer[i] == #[trigger] rules[i] && front[i]
            == dirs[i] by {}
        if ignored_from_above(origin, front, fewer, path, is_dir) {
            let i = choose|i: int|
                0 <= i < front.len() && (#[trigger] fewer[i]) is Some && fewer[i]->Some_0.contains(
                    (rendered(relative_to(target, front[i])), is_dir),
                );
            assert(rules[i] is Some);
        }
        if ignored_from_above(origin, dirs, rules, path, is_dir) {
            let i = choose|i: int|
                0 <= i < dirs.len() && (#[trigger] rules[i]) is Some && rules[i]->Some_0.contains(
                    (rendered(relative_to(target, dirs[i])), is_dir),
                );
            if i < last {
                assert(fewer[i] is Some);
            }
        }
    }
}

proof fn lemma_anchor_within(path: Seq<Part>)
    ensures
        anchor_len(path) <= path.len(),
    decreases path.len(),
{
    if path.len() > 0 {
        lemma_anchor_within(path.drop_last());
    }
}

/// What the rules of an ancestor of the root are about, for an entry below the root: the way
/// from that ancestor down to the entry, whether the root was given as an absolute path or
/// not.
pub proof fn ancestors_see_the_whole_way_down(origin: OriginView, index: int, below: Seq<Part>)
    requires
        0 <= index < ancestors_above(origin.absolute).len(),
    ensures
        ({
            let dir = ancestors_above(origin.absolute)[index];
            &&& starts_with(origin.absolute, dir)
            &&& relative_to(
                resolved(origin.given + below, origin.given, origin.absolute),
                dir,
            ) == origin.absolute.skip(dir.len() as int) + below
        }),
{
    let path = origin.given + below;
    let dir = ancestors_above(origin.absolute)[index];
    let target = origin.absolute + below;
    lemma_anchor_within(origin.absolute);
    assert(path.take(origin.given.len() as int) =~= origin.given);
    assert(path.skip(origin.given.len() as int) =~= below);
    assert(resolved(path, origin.given, origin.absolute) == target);
    assert(origin.absolute.take(dir.len() as int) =~= dir);
    assert(target.take(dir.len() as int) =~= dir);
    assert(target.skip(dir.len() as int) =~= origin.absolute.skip(dir.len() as int) + below);
}

/// Of the lines that decide about a path the last one counts, so `.rtignore`, which comes
/// last, has the final say.
pub proof fn last_verdict_counts(
    root: Seq<u8>,
    front: Seq<Seq<char>>,
    back: Seq<Seq<char>>,
    path: (Seq<u8>, bool),
)
    ensures
        ignored_by_lines(root, front + back).contains(path) == (if exists|i: int|
            0 <= i < back.len() && #[trigger] line_verdicts(root, back[i]).dom().contains(path) {
            ignored_by_lines(root, back).contains(path)
        } else {
            ignored_by_lines(root, front).contains(path)
        }),
    decreases back.len(),
{
    let decides = |lines: Seq<Seq<char>>|
        exists|i: int|
            0 <= i < lines.len() && #[trigger] line_verdicts(root, lines[i]).dom().contains(path);
    if back.len() == 0 {
        assert(front + back =~= front);
    } else {
        let shorter = back.drop_last();
        let last = back.len() - 1;
        assert((front + back).drop_last() =~= front + shorter);
        assert((front + back).last() == back.last());
        last_verdict_counts(root, front, shorter, path);
        if line_verdicts(root, back.last()).dom().contains(path) {
            assert(line_verdicts(root, back[last]).dom().contains(path));
        } else {
            if decides(shorter) {
                let i = choose|i: int|
                    0 <= i < shorter.len() && #[trigger] line_verdicts(
                        root,
                        shorter[i],
                    ).dom().contains(path);
                assert(line_verdicts(root, back[i]).dom().contains(path));
            }
            if decides(back) {
                let i = choose|i: int|
                    0 <= i < back.len() && #[trigger] line_verdicts(
                        root,
                        back[i],
                    ).dom().contains(path);
                assert(shorter[i] == back[i]);
                assert(line_verdicts(root, shorter[i]).dom().contains(path));
            }
        }
    }
}

} // verus!
