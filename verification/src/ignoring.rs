//! `.gitignore` and `.rtignore` rules.

use crate::config::Config;
use crate::path::{ancestors_above, relative_to, rendered, resolved, FsPath, Part};
use crate::shared::share;
use bstr::ByteSlice;
use ignore::gitignore::{Gitignore, GitignoreBuilder};
use std::sync::Arc;
use vstd::prelude::*;

verus! {

/// Compiled ignore rules of one directory, as the `ignore` crate keeps them.
#[verifier::external_type_specification]
#[verifier::external_body]
pub struct ExGitignore(Gitignore);

/// Ignore rules that are still being collected, as the `ignore` crate keeps them.
#[verifier::external_type_specification]
#[verifier::external_body]
pub struct ExGitignoreBuilder(GitignoreBuilder);

/// What compiled rules hold: the paths that they ignore. A path is given by its bytes, which
/// `ByteSlice::to_path_lossy` makes a path of the platform, and by whether it is a directory.
pub uninterp spec fn ignored_paths(rules: Gitignore) -> Set<(Seq<u8>, bool)>;

/// What a builder holds: the paths that its rules, once compiled, ignore.
pub uninterp spec fn pending_ignored(builder: GitignoreBuilder) -> Set<(Seq<u8>, bool)>;

/// The rules that a builder holds, as text.
pub uninterp spec fn builder_rules(builder: GitignoreBuilder) -> Seq<Seq<char>>;

/// The path to which a builder takes its rules to be relative.
pub uninterp spec fn builder_root(builder: GitignoreBuilder) -> Seq<u8>;

/// The path to which `GitignoreBuilder::new` takes the rules of the directory `dir` to be
/// relative: `dir` without a leading `./`. What counts as such, and which bytes a path may
/// hold, is up to the platform that the library is built for.
pub uninterp spec fn matcher_root(dir: Seq<u8>) -> Seq<u8>;

/// The rule that `GitignoreBuilder::add_line` makes of a line of an ignore file, as text;
/// nothing for comments, blank lines and lines that are no pattern.
pub uninterp spec fn parsed_rule(line: Seq<char>) -> Option<Seq<char>>;

/// What a rule of an ignore file in the directory `root` decides: `true` for the paths that
/// it ignores, `false` for those that it exempts, nothing for the others. The notation is
/// that of the platform that the library is built for.
pub uninterp spec fn rule_verdicts(root: Seq<u8>, rule: Seq<char>) -> Map<(Seq<u8>, bool), bool>;

/// Whether `GitignoreBuilder::build` can compile the rules: it cannot where together they
/// exceed the limits that the pattern compiler has on the platform that the library is built
/// for.
pub uninterp spec fn rules_compile(rules: Seq<Seq<char>>) -> bool;

/// What a line of an ignore file in the directory `root` decides.
pub open spec fn line_verdicts(root: Seq<u8>, line: Seq<char>) -> Map<(Seq<u8>, bool), bool> {
    match parsed_rule(line) {
        Some(rule) => rule_verdicts(root, rule),
        None => Map::empty(),
    }
}

/// Rules with that of a further line behind them, if it holds one.
pub open spec fn with_line(rules: Seq<Seq<char>>, line: Seq<char>) -> Seq<Seq<char>> {
    match parsed_rule(line) {
        Some(rule) => rules.push(rule),
        None => rules,
    }
}

/// The rules on the lines of an ignore file.
pub open spec fn rules_on(lines: Seq<Seq<char>>) -> Seq<Seq<char>>
    decreases lines.len(),
{
    if lines.len() == 0 {
        Seq::empty()
    } else {
        with_line(rules_on(lines.drop_last()), lines.last())
    }
}

/// The paths that are ignored when `verdicts` take precedence over what was ignored before.
pub open spec fn overridden(
    ignored: Set<(Seq<u8>, bool)>,
    verdicts: Map<(Seq<u8>, bool), bool>,
) -> Set<(Seq<u8>, bool)> {
    Set::new(
        |path: (Seq<u8>, bool)|
            if verdicts.dom().contains(path) {
                verdicts[path]
            } else {
                ignored.contains(path)
            },
    )
}

/// The paths that the lines of an ignore file ignore: of the lines that decide about a path,
/// the last one counts.
pub open spec fn ignored_by_lines(root: Seq<u8>, lines: Seq<Seq<char>>) -> Set<(Seq<u8>, bool)>
    decreases lines.len(),
{
    if lines.len() == 0 {
        Set::empty()
    } else {
        overridden(ignored_by_lines(root, lines.drop_last()), line_verdicts(root, lines.last()))
    }
}

/// A builder without rules for the directory `dir`.
///
/// Trusted: `GitignoreBuilder::new`. The new builder has no rules, so it ignores nothing.
#[verifier::external_body]
fn new_builder(dir: &Vec<u8>) -> (result: GitignoreBuilder)
    ensures
        builder_rules(result) == Seq::<Seq<char>>::empty(),
        pending_ignored(result) == Set::<(Seq<u8>, bool)>::empty(),
        builder_root(result) == matcher_root(dir@),
{
    GitignoreBuilder::new(dir.to_path_lossy())
}

/// Adds a line of an ignore file.
///
/// Trusted: `GitignoreBuilder::add_line`. The rule of the line goes behind those already
/// there, and of the rules that decide about a path the last one counts. A line without a
/// rule leaves the builder as it was; where the call reports it, the report is dropped. Empty
/// lines and lines that start with `#` hold no rule.
#[verifier::external_body]
fn add_line(builder: &mut GitignoreBuilder, line: &str)
    ensures
        builder_root(*final(builder)) == builder_root(*old(builder)),
        match parsed_rule(line@) {
            Some(rule) => {
                &&& builder_rules(*final(builder)) == builder_rules(*old(builder)).push(rule)
                &&& pending_ignored(*final(builder)) == overridden(
                    pending_ignored(*old(builder)),
                    rule_verdicts(builder_root(*old(builder)), rule),
                )
            },
            None => {
                &&& builder_rules(*final(builder)) == builder_rules(*old(builder))
                &&& pending_ignored(*final(builder)) == pending_ignored(*old(builder))
            },
        },
        line@.len() == 0 || line@[0] == '#' ==> builder_rules(*final(builder)) == builder_rules(
            *old(builder),
        ),
{
    let _ = builder.add_line(None, line);
}

/// Compiles the rules.
///
/// Trusted: `GitignoreBuilder::build`. Whether the rules compile depends on the rules alone,
/// and where there are none they do. The compiled rules ignore what the builder's rules
/// ignore.
#[verifier::external_body]
fn build_rules(builder: &GitignoreBuilder) -> (result: Option<Gitignore>)
    ensures
        result is Some == rules_compile(builder_rules(*builder)),
        builder_rules(*builder).len() == 0 ==> result is Some,
        result is Some ==> ignored_paths(result->Some_0) == pending_ignored(*builder),
{
    builder.build().ok()
}

/// Whether compiled rules ignore a path.
///
/// Trusted: `Gitignore::matched` with `Match::is_ignore`. The answer is whether the path is
/// among those that the rules ignore.
#[verifier::external_body]
fn rules_ignore(rules: &Gitignore, path: &Vec<u8>, is_dir: bool) -> (result: bool)
    ensures
        result == ignored_paths(*rules).contains((path@, is_dir)),
{
    rules.matched(path.to_path_lossy(), is_dir).is_ignore()
}

/// The lines of the ignore files of a directory. A file that cannot be read has none; one
/// that holds invalid text has those before it.
#[derive(Clone, Debug, PartialEq, Eq)]
pub struct IgnoreFiles {
    pub gitignore: Vec<String>,
    pub rtignore: Vec<String>,
}

/// Text without the byte order marks at its start.
pub open spec fn without_bom(text: Seq<char>) -> Seq<char>
    decreases text.len(),
{
    if text.len() > 0 && text[0] == '\u{feff}' {
        without_bom(text.skip(1))
    } else {
        text
    }
}

/// The lines of a file, without byte order marks at the start of the first.
pub open spec fn clean_lines(lines: Seq<String>) -> Seq<Seq<char>> {
    Seq::new(
        lines.len(),
        |i: int|
            if i == 0 {
                without_bom(lines[i]@)
            } else {
                lines[i]@
            },
    )
}

impl IgnoreFiles {
    /// The lines of both files, those of `.rtignore` last.
    pub open spec fn lines(self) -> Seq<Seq<char>> {
        clean_lines(self.gitignore@) + clean_lines(self.rtignore@)
    }
}

/// The paths that the ignore files of the directory `dir` ignore.
pub open spec fn ignored_in(dir: Seq<Part>, files: IgnoreFiles) -> Set<(Seq<u8>, bool)> {
    ignored_by_lines(matcher_root(rendered(dir)), files.lines())
}

/// The paths that the compiled rules of the directory `dir` ignore; nothing if its ignore
/// files do not compile.
pub open spec fn rules_in(dir: Seq<Part>, files: IgnoreFiles) -> Option<Set<(Seq<u8>, bool)>> {
    if rules_compile(rules_on(files.lines())) {
        Some(ignored_in(dir, files))
    } else {
        None
    }
}

/// The compiled rules of several directories.
pub open spec fn rules_in_all(
    dirs: Seq<Seq<Part>>,
    files: Seq<IgnoreFiles>,
) -> Seq<Option<Set<(Seq<u8>, bool)>>> {
    Seq::new(dirs.len(), |i: int| rules_in(dirs[i], files[i]))
}

fn trim_bom(text: &str) -> (result: &str)
    ensures
        result@ == without_bom(text@),
{
    let len: usize = text.unicode_len();
    let mut start: usize = 0;
    assert(text@.skip(0) =~= text@);
    while start < len && text.get_char(start) == '\u{feff}'
        invariant
            start <= len == text@.len(),
            without_bom(text@.skip(start as int)) == without_bom(text@),
        decreases len - start,
    {
        assert(text@.skip(start as int).skip(1) =~= text@.skip(start + 1));
        start = start + 1;
    }
    assert(text@.subrange(start as int, len as int) =~= text@.skip(start as int));
    text.substring_char(start, len)
}

/// Adds the lines of an ignore file, the byte order mark of the first line left out, to a
/// builder that holds the rules on the lines `before`.
fn add_lines(builder: &mut GitignoreBuilder, lines: &Vec<String>, Ghost(before): Ghost<Seq<Seq<char>>>)
    requires
        builder_rules(*old(builder)) == rules_on(before),
        pending_ignored(*old(builder)) == ignored_by_lines(builder_root(*old(builder)), before),
    ensures
        builder_root(*final(builder)) == builder_root(*old(builder)),
        builder_rules(*final(builder)) == rules_on(before + clean_lines(lines@)),
        pending_ignored(*final(builder)) == ignored_by_lines(
            builder_root(*old(builder)),
            before + clean_lines(lines@),
        ),
{
    let ghost root = builder_root(*builder);
    let ghost clean = clean_lines(lines@);
    let mut i: usize = 0;
    assert(before + clean.take(0) =~= before);
    while i < lines.len()
        invariant
            i <= lines@.len(),
            clean == clean_lines(lines@),
            builder_root(*builder) == root,
            builder_rules(*builder) == rules_on(before + clean.take(i as int)),
            pending_ignored(*builder) == ignored_by_lines(root, before + clean.take(i as int)),
        decreases lines@.len() - i,
    {
        let ghost ignored = pending_ignored(*builder);
        if i == 0 {
            add_line(builder, trim_bom(lines[i].as_str()));
        } else {
            add_line(builder, lines[i].as_str());
        }
        proof {
            let longer = before + clean.take(i + 1);
            assert(longer.drop_last() =~= before + clean.take(i as int));
            assert(longer.last() == clean[i as int]);
            assert(overridden(ignored, Map::empty()) =~= ignored);
        }
        i = i + 1;
    }
    assert(clean.take(clean.len() as int) =~= clean);
}

/// Compiles the ignore files of the directory `dir`, the rules of `.rtignore` behind those
/// of `.gitignore`.
///
/// `None` if the rules could not be compiled; a directory without rules has an empty set of
/// them.
pub fn compile_rules(dir: &FsPath, files: &IgnoreFiles) -> (result: Option<Gitignore>)
    ensures
        compiled(result) == rules_in(dir@, *files),
        rules_on(files.lines()).len() == 0 ==> result is Some,
{
    let root: Vec<u8> = dir.render();
    let mut builder = new_builder(&root);
    let ghost none: Seq<Seq<char>> = Seq::empty();
    add_lines(&mut builder, &files.gitignore, Ghost(none));
    assert(none + clean_lines(files.gitignore@) =~= clean_lines(files.gitignore@));
    add_lines(&mut builder, &files.rtignore, Ghost(clean_lines(files.gitignore@)));
    build_rules(&builder)
}

/// Where a traversal starts: its root as it was given, and the absolute form of it.
#[derive(Debug)]
pub struct Origin {
    pub given: FsPath,
    pub absolute: FsPath,
}

/// Where a traversal starts, with its paths as sequences.
pub struct OriginView {
    pub given: Seq<Part>,
    pub absolute: Seq<Part>,
}

impl View for Origin {
    type V = OriginView;

    open spec fn view(&self) -> OriginView {
        OriginView { given: self.given@, absolute: self.absolute@ }
    }
}

/// Where a traversal starts, if that matters, with its paths as sequences.
pub open spec fn origin_view(origin: Option<Origin>) -> Option<OriginView> {
    match origin {
        Some(origin) => Some(origin@),
        None => None,
    }
}

/// The rules of one directory.
#[derive(Debug)]
pub struct Layer {
    root: FsPath,
    rules: Arc<Gitignore>,
    /// Where the directory lies above the root of the traversal.
    origin: Option<Origin>,
}

/// The directory of a layer, the paths that its rules ignore, and where the traversal starts
/// if the directory lies above that.
pub struct LayerView {
    pub root: Seq<Part>,
    pub ignored: Set<(Seq<u8>, bool)>,
    pub origin: Option<OriginView>,
}

impl View for Layer {
    type V = LayerView;

    closed spec fn view(&self) -> LayerView {
        LayerView {
            root: self.root@,
            ignored: ignored_paths(*self.rules),
            origin: origin_view(self.origin),
        }
    }
}

impl Layer {
    fn copy(&self) -> (result: Layer)
        ensures
            result@ == self@,
    {
        let origin = match &self.origin {
            Some(origin) => Some(origin.copy()),
            None => None,
        };
        Layer { root: self.root.clone(), rules: share(&self.rules), origin }
    }

    /// `path` as the rules of the layer are about it.
    fn candidate(&self, path: &FsPath) -> (result: FsPath)
        ensures
            result@ == self@.candidate(path@),
    {
        match &self.origin {
            Some(origin) => path.resolved(&origin.given, &origin.absolute).relative_to(&self.root),
            None => path.relative_to(&self.root),
        }
    }
}

impl Origin {
    fn copy(&self) -> (result: Origin)
        ensures
            result@ == self@,
    {
        Origin { given: self.given.clone(), absolute: self.absolute.clone() }
    }
}

impl LayerView {
    /// `path` as the rules of the layer are about it: relative to the layer's directory where
    /// it lies below it. A directory above the root of the traversal is known by its absolute
    /// path, so a path below that root is made absolute first.
    pub open spec fn candidate(self, path: Seq<Part>) -> Seq<Part> {
        match self.origin {
            Some(origin) => relative_to(resolved(path, origin.given, origin.absolute), self.root),
            None => relative_to(path, self.root),
        }
    }

    /// Whether the layer ignores `path`.
    pub open spec fn ignores(self, path: Seq<Part>, is_dir: bool) -> bool {
        self.ignored.contains((rendered(self.candidate(path)), is_dir))
    }
}

/// Tracks .gitignore and .rtignore rules during traversal.
///
/// Maintains a stack of rules, one for each directory that was entered. Cloning is cheap
/// and safe for parallel traversal.
#[derive(Debug)]
pub struct IgnoreMatcher {
    enabled: bool,
    layers: Vec<Layer>,
}

/// Whether rules are in force, and the rules of the directories entered, outermost first.
pub struct IgnoreView {
    pub enabled: bool,
    pub layers: Seq<LayerView>,
}

impl View for IgnoreMatcher {
    type V = IgnoreView;

    closed spec fn view(&self) -> IgnoreView {
        IgnoreView {
            enabled: self.enabled,
            layers: self.layers@.map_values(|layer: Layer| layer@),
        }
    }
}

impl IgnoreView {
    /// Whether some layer ignores `path`.
    pub open spec fn ignores(self, path: Seq<Part>, is_dir: bool) -> bool {
        self.enabled && exists|i: int|
            0 <= i < self.layers.len() && #[trigger] self.layers[i].ignores(path, is_dir)
    }

    /// With the rules of the directory `dir` on top, which may lie above the root of the
    /// traversal; unchanged where rules are not in force or the directory has none that
    /// compile.
    pub open spec fn layered(
        self,
        dir: Seq<Part>,
        ignored: Option<Set<(Seq<u8>, bool)>>,
        origin: Option<OriginView>,
    ) -> IgnoreView {
        match ignored {
            Some(ignored) if self.enabled => IgnoreView {
                enabled: self.enabled,
                layers: self.layers.push(LayerView { root: dir, ignored, origin }),
            },
            _ => self,
        }
    }

    /// With the rules of the directory `dir`, which is visited, on top.
    pub open spec fn pushed(
        self,
        dir: Seq<Part>,
        ignored: Option<Set<(Seq<u8>, bool)>>,
    ) -> IgnoreView {
        self.layered(dir, ignored, None)
    }

    /// With the rules of several directories above the root of the traversal on top, one
    /// after the other.
    pub open spec fn seeded(
        self,
        origin: OriginView,
        dirs: Seq<Seq<Part>>,
        ignored: Seq<Option<Set<(Seq<u8>, bool)>>>,
    ) -> IgnoreView
        decreases dirs.len(),
    {
        if dirs.len() == 0 {
            self
        } else {
            self.seeded(origin, dirs.drop_last(), ignored.drop_last()).layered(
                dirs.last(),
                ignored.last(),
                Some(origin),
            )
        }
    }
}

/// What compiled rules ignore, if there are any.
pub open spec fn compiled(rules: Option<Gitignore>) -> Option<Set<(Seq<u8>, bool)>> {
    match rules {
        Some(rules) => Some(ignored_paths(rules)),
        None => None,
    }
}

impl IgnoreMatcher {
    /// A matcher without rules; one that is not enabled never ignores anything.
    pub fn new(enabled: bool) -> (result: IgnoreMatcher)
        ensures
            result@ == (IgnoreView { enabled, layers: Seq::empty() }),
    {
        let result = IgnoreMatcher { enabled, layers: Vec::new() };
        assert(result@.layers =~= Seq::empty());
        result
    }

    /// Whether rules are in force.
    pub fn is_enabled(&self) -> (result: bool)
        ensures
            result == self@.enabled,
    {
        self.enabled
    }

    /// Create a clone for a child directory (parallel-safe).
    pub fn clone_for_child(&self) -> (result: IgnoreMatcher)
        ensures
            result@ == self@,
    {
        let mut layers: Vec<Layer> = Vec::new();
        let mut i: usize = 0;
        while i < self.layers.len()
            invariant
                i <= self.layers@.len(),
                layers@.len() == i,
                forall|j: int| 0 <= j < i ==> #[trigger] layers@[j]@ == self.layers@[j]@,
            decreases self.layers@.len() - i,
        {
            layers.push(self.layers[i].copy());
            i = i + 1;
        }
        let result = IgnoreMatcher { enabled: self.enabled, layers };
        assert(result@.layers =~= self@.layers);
        result
    }

    /// Puts compiled rules of the directory `dir` on top; `origin` is where the traversal
    /// starts if the directory lies above that.
    pub fn push_rules(&mut self, dir: &FsPath, rules: Option<Gitignore>, origin: Option<Origin>)
        ensures
            final(self)@ == old(self)@.layered(dir@, compiled(rules), origin_view(origin)),
    {
        if self.enabled {
            if let Some(rules) = rules {
                let layer = Layer { root: dir.clone(), rules: Arc::new(rules), origin };
                self.layers.push(layer);
            }
        }
        assert(self@.layers =~= old(self)@.layered(
            dir@,
            compiled(rules),
            origin_view(origin),
        ).layers);
    }

    /// Push ignore rules for the given directory.
    ///
    /// The rules of the ignore files go on top, unless they could not be compiled.
    pub fn push_dir(&mut self, dir: &FsPath, files: &IgnoreFiles)
        ensures
            final(self)@ == old(self)@.pushed(dir@, rules_in(dir@, *files)),
            old(self)@.enabled && rules_on(files.lines()).len() == 0 ==> final(self)@
                == old(self)@.pushed(dir@, Some(ignored_in(dir@, *files))),
    {
        if self.enabled {
            self.push_rules(dir, compile_rules(dir, files), None);
        }
    }

    /// Seed the matcher with the rules found in every ancestor of `root` (not including
    /// `root` itself), the outermost first.
    ///
    /// `absolute` is the absolute form of `root`, and `files` holds the ignore files of its
    /// ancestors. The rules of an ancestor are left out if they could not be compiled. They
    /// are about paths relative to that ancestor, also where `root`, and with it the paths of
    /// the entries below it, is relative.
    pub fn seed_from_ancestors(
        &mut self,
        root: &FsPath,
        absolute: &FsPath,
        files: &Vec<IgnoreFiles>,
    )
        requires
            old(self)@.enabled ==> files@.len() == ancestors_above(absolute@).len(),
        ensures
            final(self)@ == (if old(self)@.enabled {
                old(self)@.seeded(
                    OriginView { given: root@, absolute: absolute@ },
                    ancestors_above(absolute@),
                    rules_in_all(ancestors_above(absolute@), files@),
                )
            } else {
                old(self)@
            }),
    {
        if !self.enabled {
            return;
        }
        let ghost before = self@;
        let origin = Origin { given: root.clone(), absolute: absolute.clone() };
        let ghost above = ancestors_above(absolute@);
        let ghost all = rules_in_all(above, files@);
        let dirs = absolute.ancestors_above();
        let mut i: usize = 0;
        assert(dirs@.len() == dirs@.map_values(|dir: FsPath| dir@).len());
        while i < dirs.len()
            invariant
                i <= dirs@.len() == files@.len() == above.len(),
                all == rules_in_all(above, files@),
                dirs@.map_values(|dir: FsPath| dir@) == above,
                self@ == before.seeded(origin@, above.take(i as int), all.take(i as int)),
            decreases dirs@.len() - i,
        {
            proof {
                assert(dirs@.map_values(|dir: FsPath| dir@)[i as int] == dirs@[i as int]@);
                assert(above.take(i + 1).drop_last() =~= above.take(i as int));
                assert(all.take(i + 1).drop_last() =~= all.take(i as int));
                assert(above.take(i + 1).last() == above[i as int]);
                assert(all.take(i + 1).last() == all[i as int]);
            }
            self.push_rules(
                &dirs[i],
                compile_rules(&dirs[i], &files[i]),
                Some(origin.copy()),
            );
            i = i + 1;
        }
        assert(above.take(above.len() as int) =~= above);
        assert(all.take(all.len() as int) =~= all);
    }

    /// Check if a path is ignored by any rules in the stack.
    pub fn is_ignored(&self, path: &FsPath, is_dir: bool) -> (result: bool)
        ensures
            result == self@.ignores(path@, is_dir),
    {
        if !self.enabled {
            return false;
        }
        let mut i: usize = 0;
        while i < self.layers.len()
            invariant
                self.enabled,
                i <= self.layers@.len(),
                forall|j: int|
                    0 <= j < i ==> !(#[trigger] self@.layers[j]).ignores(path@, is_dir),
            decreases self.layers@.len() - i,
        {
            let candidate = self.layers[i].candidate(path);
            let hit = rules_ignore(&self.layers[i].rules, &candidate.render(), is_dir);
            assert(hit == self@.layers[i as int].ignores(path@, is_dir));
            if hit {
                return true;
            }
            i = i + 1;
        }
        false
    }
}

/// The rules in force when the traversal of `root` starts.
pub open spec fn rules_at_start(
    config: Config,
    origin: OriginView,
    files: Seq<IgnoreFiles>,
) -> IgnoreView {
    let nothing = IgnoreView { enabled: !config.no_ignore, layers: Seq::empty() };
    let above = ancestors_above(origin.absolute);
    if config.no_ignore {
        nothing
    } else {
        nothing.seeded(origin, above, rules_in_all(above, files))
    }
}

/// The rules in force when the traversal of `root` starts: those of the directories above
/// it, unless the options say that ignore files are not read.
///
/// `absolute` is the absolute form of `root`; `files` holds the ignore files of its
/// ancestors, the outermost first.
pub fn rules_above(
    config: &Config,
    root: &FsPath,
    absolute: &FsPath,
    files: &Vec<IgnoreFiles>,
) -> (result: IgnoreMatcher)
    requires
        !config.no_ignore ==> files@.len() == ancestors_above(absolute@).len(),
    ensures
        result@ == rules_at_start(
            *config,
            OriginView { given: root@, absolute: absolute@ },
            files@,
        ),
{
    let mut ignore = IgnoreMatcher::new(!config.no_ignore);
    ignore.seed_from_ancestors(root, absolute, files);
    ignore
}

} // verus!
