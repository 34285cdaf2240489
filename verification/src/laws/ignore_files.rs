//! What the ignore files of a directory, and of the directories above the root, ignore.

use crate::config::Config;
use crate::ignoring::{
    ignored_by_lines, matcher_root, parsed_rule, rule_verdicts, rules_at_start,
    rules_compile, rules_in, rules_in_all, rules_on, without_bom, IgnoreFiles, IgnoreView,
    OriginView,
};
use crate::laws::paths::{
    every_directory_above_is_an_ancestor, relative_paths_are_the_way_down,
    resolving_keeps_the_way_down,
};
use crate::laws::rules::{ignored_from_above, rules_add_up, seeding_applies_every_ancestor};
use crate::path::{ancestors_above, relative_to, rendered, resolved, Part};
use crate::streaming::LevelView;
use crate::walk::VisitView;
use vstd::prelude::*;

verus! {

/// Whether a line of an ignore file holds a rule that decides about a path.
pub open spec fn decides(root: Seq<u8>, line: Seq<char>, path: (Seq<u8>, bool)) -> bool {
    parsed_rule(line) is Some && rule_verdicts(root, parsed_rule(line)->Some_0).dom().contains(
        path,
    )
}

/// Whether a line decides about a path, ignores it, and no later line decides otherwise.
pub open spec fn has_the_last_word(
    root: Seq<u8>,
    lines: Seq<Seq<char>>,
    path: (Seq<u8>, bool),
    line: int,
) -> bool {
    &&& 0 <= line < lines.len()
    &&& decides(root, lines[line], path)
    &&& rule_verdicts(root, parsed_rule(lines[line])->Some_0)[path]
    &&& forall|later: int|
        line < later < lines.len() ==> !decides(root, #[trigger] lines[later], path)
}

/// A path is ignored exactly if the last line that decides about it ignores it.
pub proof fn the_last_line_that_decides_counts(
    root: Seq<u8>,
    lines: Seq<Seq<char>>,
    path: (Seq<u8>, bool),
)
    ensures
        ignored_by_lines(root, lines).contains(path) <==> exists|line: int| #[trigger]
            has_the_last_word(root, lines, path, line),
    decreases lines.len(),
{
    if lines.len() > 0 {
        let front = lines.drop_last();
        let last = lines.len() - 1;
        the_last_line_that_decides_counts(root, front, path);
        if decides(root, lines[last], path) {
            if exists|line: int| #[trigger] has_the_last_word(root, lines, path, line) {
                let line = choose|line: int| #[trigger] has_the_last_word(root, lines, path, line);
                if line < last {
                    assert(!decides(root, lines[last], path));
                }
            }
            if rule_verdicts(root, parsed_rule(lines[last])->Some_0)[path] {
                assert(has_the_last_word(root, lines, path, last));
            }
        } else {
            if exists|line: int| #[trigger] has_the_last_word(root, front, path, line) {
                let line = choose|line: int| #[trigger] has_the_last_word(root, front, path, line);
                assert forall|later: int| line < later < lines.len() implies !decides(
                    root,
                    #[trigger] lines[later],
                    path,
                ) by {
                    if later < last {
                        assert(front[later] == lines[later]);
                    }
                }
                assert(has_the_last_word(root, lines, path, line));
            }
            if exists|line: int| #[trigger] has_the_last_word(root, lines, path, line) {
                let line = choose|line: int| #[trigger] has_the_last_word(root, lines, path, line);
                assert(line < last);
                assert forall|later: int| line < later < front.len() implies !decides(
                    root,
                    #[trigger] front[later],
                    path,
                ) by {
                    assert(front[later] == lines[later]);
                }
                assert(has_the_last_word(root, front, path, line));
            }
        }
    }
}

/// The rules of an ignore file are those of its lines, in their order; a line without a rule
/// adds none.
pub proof fn every_line_gives_its_rule(front: Seq<Seq<char>>, line: Seq<char>)
    ensures
        rules_on(Seq::<Seq<char>>::empty()) == Seq::<Seq<char>>::empty(),
        parsed_rule(line) is None ==> rules_on(front.push(line)) == rules_on(front),
        parsed_rule(line) is Some ==> rules_on(front.push(line)) == rules_on(front).push(
            parsed_rule(line)->Some_0,
        ),
{
    assert(front.push(line).drop_last() =~= front);
}

/// Byte order marks at the start of a text are dropped, all of them, and nothing else.
pub proof fn only_byte_order_marks_are_dropped(text: Seq<char>)
    ensures
        ({
            let rest = without_bom(text);
            let dropped = text.len() - rest.len();
            &&& 0 <= dropped
            &&& text.skip(dropped) == rest
            &&& forall|i: int| 0 <= i < dropped ==> (#[trigger] text[i]) == '\u{feff}'
            &&& rest.len() > 0 ==> rest[0] != '\u{feff}'
        }),
    decreases text.len(),
{
    let rest = without_bom(text);
    if text.len() > 0 && text[0] == '\u{feff}' {
        let shorter = text.skip(1);
        only_byte_order_marks_are_dropped(shorter);
        let dropped = text.len() - rest.len();
        assert(text.skip(dropped) =~= shorter.skip(dropped - 1));
        assert forall|i: int| 0 <= i < dropped implies (#[trigger] text[i]) == '\u{feff}' by {
            if i > 0 {
                assert(shorter[i - 1] == text[i]);
            }
        }
    } else {
        assert(text.skip(0) =~= text);
    }
}

/// The lines of a directory are those of `.gitignore`, then those of `.rtignore`. Only the
/// first line of a file loses its byte order marks.
pub proof fn both_ignore_files_are_read(files: IgnoreFiles, index: int)
    requires
        0 <= index < files.gitignore@.len() + files.rtignore@.len(),
    ensures
        files.lines().len() == files.gitignore@.len() + files.rtignore@.len(),
        ({
            let first = files.gitignore@.len();
            let line = if index < first {
                files.gitignore@[index]@
            } else {
                files.rtignore@[index - first]@
            };
            files.lines()[index] == if index == 0 || index == first {
                without_bom(line)
            } else {
                line
            }
        }),
{
}

/// The rules of a directory are relative to it. They count unless they cannot be compiled.
pub proof fn rules_belong_to_their_directory(dir: Seq<Part>, files: IgnoreFiles)
    ensures
        rules_compile(rules_on(files.lines())) ==> rules_in(dir, files) == Some(
            ignored_by_lines(matcher_root(rendered(dir)), files.lines()),
        ),
        !rules_compile(rules_on(files.lines())) ==> rules_in(dir, files) is None,
{
}

/// Without layers nothing is ignored, and rules that are not in force ignore nothing.
pub proof fn nothing_is_ignored_without_rules(ignore: IgnoreView, path: Seq<Part>, is_dir: bool)
    requires
        !ignore.enabled || ignore.layers.len() == 0,
    ensures
        !ignore.ignores(path, is_dir),
{
}

/// Whether the ignore files of a directory ignore what lies below it: the last line that
/// decides ignores it.
pub open spec fn ignored_below(
    dir: Seq<Part>,
    files: IgnoreFiles,
    below: Seq<Part>,
    is_dir: bool,
) -> bool {
    &&& rules_compile(rules_on(files.lines()))
    &&& exists|line: int| #[trigger]
        has_the_last_word(
            matcher_root(rendered(dir)),
            files.lines(),
            (rendered(below), is_dir),
            line,
        )
}

/// While a directory is visited, its ignore files are in force besides all others: something
/// below it is ignored exactly if it was before, or if they ignore it. Nothing else about the
/// visit changes.
pub proof fn visited_directories_add_their_rules(
    visit: VisitView,
    files: IgnoreFiles,
    below: Seq<Part>,
    is_dir: bool,
)
    ensures
        ({
            let path = visit.path@ + below;
            let inside = visit.with_rules(files);
            &&& inside.ignore.ignores(path, is_dir) <==> visit.ignore.ignores(path, is_dir) || (
            visit.ignore.enabled && ignored_below(visit.path@, files, below, is_dir))
            &&& inside.ignore.enabled == visit.ignore.enabled
            &&& inside.path == visit.path
            &&& inside.depth == visit.depth
            &&& inside.included == visit.included
            &&& inside.parent_matched == visit.parent_matched
        }),
{
    let path = visit.path@ + below;
    rules_add_up(visit.ignore, visit.path@, rules_in(visit.path@, files), path, is_dir);
    relative_paths_are_the_way_down(visit.path@, below, path);
    the_last_line_that_decides_counts(
        matcher_root(rendered(visit.path@)),
        files.lines(),
        (rendered(below), is_dir),
    );
}

/// The same of a level of a streaming traversal.
pub proof fn streamed_directories_add_their_rules(
    level: LevelView,
    files: IgnoreFiles,
    below: Seq<Part>,
    is_dir: bool,
)
    ensures
        ({
            let path = level.path@ + below;
            let inside = level.with_rules(files);
            &&& inside.ignore.ignores(path, is_dir) <==> level.ignore.ignores(path, is_dir) || (
            level.ignore.enabled && ignored_below(level.path@, files, below, is_dir))
            &&& inside.ignore.enabled == level.ignore.enabled
            &&& inside.path == level.path
            &&& inside.depth == level.depth
            &&& inside.parent_matched == level.parent_matched
        }),
{
    let path = level.path@ + below;
    rules_add_up(level.ignore, level.path@, rules_in(level.path@, files), path, is_dir);
    relative_paths_are_the_way_down(level.path@, below, path);
    the_last_line_that_decides_counts(
        matcher_root(rendered(level.path@)),
        files.lines(),
        (rendered(below), is_dir),
    );
}

/// Whether the ignore files of a directory above an absolute path ignore something below that
/// path. The directory has so many components, and the first ancestor of the path `anchored`.
pub open spec fn ignored_by_ancestor(
    absolute: Seq<Part>,
    anchored: int,
    files: Seq<IgnoreFiles>,
    below: Seq<Part>,
    is_dir: bool,
    len: int,
) -> bool {
    &&& anchored <= len < absolute.len()
    &&& ignored_below(
        absolute.take(len),
        files[len - anchored],
        absolute.skip(len) + below,
        is_dir,
    )
}

/// When a traversal starts, something below its root is ignored exactly if ignore files are
/// read at all and those of some directory above the root ignore it, from the outermost to
/// the one directly above. It does not matter whether the root was given as an absolute path.
pub proof fn rules_of_every_directory_above_apply(
    config: Config,
    origin: OriginView,
    anchored: int,
    files: Seq<IgnoreFiles>,
    below: Seq<Part>,
    is_dir: bool,
)
    requires
        ({
            let path = origin.absolute;
            &&& 0 <= anchored <= path.len()
            &&& anchored > 0 ==> path[anchored - 1] is Prefix || path[anchored - 1] is RootDir
            &&& forall|i: int|
                anchored <= i < path.len() ==> !((#[trigger] path[i]) is Prefix) && !(path[i]
                    is RootDir)
            &&& files.len() == path.len() - anchored
        }),
    ensures
        rules_at_start(config, origin, files).enabled == !config.no_ignore,
        rules_at_start(config, origin, files).ignores(origin.given + below, is_dir) <==> (
        !config.no_ignore && exists|len: int| #[trigger]
            ignored_by_ancestor(origin.absolute, anchored, files, below, is_dir, len)),
{
    let absolute = origin.absolute;
    let path = origin.given + below;
    let dirs = ancestors_above(absolute);
    let rules = rules_in_all(dirs, files);
    let nothing = IgnoreView { enabled: !config.no_ignore, layers: Seq::empty() };
    every_directory_above_is_an_ancestor(absolute, anchored);
    resolving_keeps_the_way_down(origin.given, absolute, below, path);
    nothing_is_ignored_without_rules(nothing, path, is_dir);
    if !config.no_ignore {
        seeding_applies_every_ancestor(nothing, origin, dirs, rules, path, is_dir);
        assert forall|len: int| anchored <= len < absolute.len() implies (
        #[trigger] ignored_by_ancestor(absolute, anchored, files, below, is_dir, len)) == (
        rules[len - anchored] is Some && rules[len - anchored]->Some_0.contains(
            (rendered(relative_to(absolute + below, dirs[len - anchored])), is_dir),
        )) by {
            let dir = absolute.take(len);
            let way = absolute.skip(len) + below;
            assert(dirs[len - anchored] == dir);
            assert(absolute + below =~= dir + way);
            relative_paths_are_the_way_down(dir, way, path);
            the_last_line_that_decides_counts(
                matcher_root(rendered(dir)),
                files[len - anchored].lines(),
                (rendered(way), is_dir),
            );
        }
        if ignored_from_above(origin, dirs, rules, path, is_dir) {
            let i = choose|i: int|
                0 <= i < dirs.len() && (#[trigger] rules[i]) is Some && rules[i]->Some_0.contains(
                    (
                        rendered(
                            relative_to(
                                resolved(path, origin.given, origin.absolute),
                                dirs[i],
                            ),
                        ),
                        is_dir,
                    ),
                );
            assert(ignored_by_ancestor(absolute, anchored, files, below, is_dir, i + anchored));
        }
        if exists|len: int| #[trigger]
            ignored_by_ancestor(absolute, anchored, files, below, is_dir, len) {
            let len = choose|len: int| #[trigger]
                ignored_by_ancestor(absolute, anchored, files, below, is_dir, len);
            assert(rules[len - anchored] is Some);
        }
    }
}

} // verus!
