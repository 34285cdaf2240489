use retree::config::Config;
use retree::engine::finish_traversal;
use retree::entry::{Entry, EntryType, FileIdInfo, StreamInfo, Tree};
use retree::error::{IoFault, TreeError};
use retree::ignoring::{IgnoreFiles, IgnoreMatcher};
use retree::limiter::DirReadLimiter;
use retree::listing::{read_sorted_children, DirItem, FileKind, ReadDirResult};
use retree::path::{FsPath, PathPart};
use retree::protocol::{Reply, Request};
use retree::streaming::{StreamWalk, StreamingResult};
use retree::task::{NodeTask, Outcome};
use retree::visited::{check_visited, make_visited_key, VisitedSet};
use retree::walk::OrderedWalk;

#[derive(Clone, Copy, PartialEq)]
enum Kind {
    Dir,
    File,
    Link(&'static str),
    Junction(&'static str),
}

struct Node {
    path: &'static str,
    kind: Kind,
    volume: u64,
}

/// A file system in memory: the entries of a directory come in the order in which they are
/// listed here.
struct Fake {
    nodes: Vec<Node>,
    unknown_volumes: Vec<&'static str>,
    unreadable: Vec<(&'static str, IoFault)>,
    undescribable: Vec<&'static str>,
    rules: Vec<(&'static str, &'static str)>,
    streams: Vec<(&'static str, Vec<&'static str>)>,
    file_limit: Option<usize>,
    junctions_as_links: bool,
}

/// A task of a parallel traversal that is under way.
struct Running {
    task: NodeTask,
    /// The task that it was forked from, and for which of its entries.
    parent: Option<(usize, usize)>,
    forked: bool,
    waiting_for: usize,
    outcomes: Vec<Option<Outcome>>,
}

fn running(task: NodeTask, parent: Option<(usize, usize)>) -> Option<Running> {
    Some(Running { task, parent, forked: false, waiting_for: 0, outcomes: vec![] })
}

fn fs(text: &str) -> FsPath {
    let mut parts = Vec::new();
    if text.starts_with('/') {
        parts.push(PathPart::RootDir);
    }
    for name in text.split('/') {
        if !name.is_empty() {
            parts.push(PathPart::Normal(name.as_bytes().to_vec()));
        }
    }
    FsPath::from_parts(parts)
}

fn text(path: &FsPath) -> String {
    String::from_utf8(path.render()).unwrap()
}

fn fake(nodes: Vec<(&'static str, Kind)>) -> Fake {
    Fake {
        nodes: nodes
            .into_iter()
            .map(|(path, kind)| Node { path, kind, volume: 1 })
            .collect(),
        unknown_volumes: vec![],
        unreadable: vec![],
        undescribable: vec![],
        rules: vec![],
        streams: vec![],
        file_limit: None,
        junctions_as_links: false,
    }
}

impl Fake {
    fn find(&self, path: &str) -> Option<usize> {
        self.nodes.iter().position(|node| node.path == path)
    }

    /// Where a path leads, links in it followed.
    fn resolve(&self, path: &str) -> String {
        let mut real = String::new();
        for name in path.split('/') {
            if name.is_empty() {
                continue;
            }
            real = format!("{real}/{name}");
            if let Some(index) = self.find(&real) {
                match self.nodes[index].kind {
                    Kind::Link(target) | Kind::Junction(target) => real = target.to_string(),
                    _ => {}
                }
            }
        }
        real
    }

    /// The node that a path names, the last component not followed.
    fn named(&self, path: &str) -> Option<usize> {
        match path.rfind('/') {
            Some(0) | None => self.find(path),
            Some(cut) => self.find(&format!("{}{}", self.resolve(&path[..cut]), &path[cut..])),
        }
    }

    fn leads_to_dir(&self, path: &str) -> bool {
        match self.find(&self.resolve(path)) {
            Some(index) => self.nodes[index].kind == Kind::Dir,
            None => false,
        }
    }

    fn describe(&self, path: &FsPath, depth: usize) -> Result<Entry, TreeError> {
        let name = text(path);
        let index = match self.named(&name) {
            Some(index) if !self.undescribable.contains(&name.as_str()) => index,
            _ => return Err(TreeError::Generic(format!("lost {name}"))),
        };
        Ok(Entry {
            path: path.clone(),
            name: name.rsplit('/').next().unwrap().as_bytes().to_vec(),
            entry_type: match self.nodes[index].kind {
                Kind::Dir => EntryType::Directory,
                Kind::File => EntryType::File,
                Kind::Link(target) => EntryType::Symlink {
                    target: fs(target),
                    broken: self.find(&self.resolve(target)).is_none(),
                },
                Kind::Junction(target) => EntryType::Junction { target: fs(target) },
            },
            metadata: None,
            depth,
            is_last: false,
            ancestors_last: vec![],
            filelimit_exceeded: None,
            recursive_link: false,
        })
    }

    fn list(&self, path: &FsPath) -> ReadDirResult {
        let shown = text(path);
        for (unreadable, fault) in &self.unreadable {
            if *unreadable == shown {
                return read_sorted_children(Err(fault.clone()));
            }
        }
        let real = self.resolve(&shown);
        let mut items = Vec::new();
        for node in &self.nodes {
            let cut = node.path.rfind('/').unwrap();
            if node.path[..cut] == real && node.path != real {
                let name = &node.path[cut + 1..];
                let child = format!("{shown}/{name}");
                items.push(DirItem {
                    path: fs(&child),
                    name: name.as_bytes().to_vec(),
                    kind: Some(match node.kind {
                        Kind::Junction(_) if self.junctions_as_links => FileKind::Symlink,
                        Kind::Dir | Kind::Junction(_) => FileKind::Dir,
                        Kind::Link(_) => FileKind::Symlink,
                        Kind::File => FileKind::File,
                    }),
                    link_to_dir: self.leads_to_dir(&child),
                    rank: items.len() as u64,
                    reserved: name == "NUL",
                    excluded: name.starts_with("no_"),
                    included: true,
                    dir_included: name == "wanted",
                });
            }
        }
        match self.file_limit {
            Some(limit) if items.len() > limit => read_sorted_children(Ok(Err(items.len()))),
            _ => read_sorted_children(Ok(Ok(items))),
        }
    }

    fn identity(&self, path: &str) -> Option<FileIdInfo> {
        let index = self.find(&self.resolve(path))?;
        let volume_serial = self.nodes[index].volume;
        Some(FileIdInfo { volume_serial, file_id: index as u64 })
    }

    fn volume(&self, path: &FsPath) -> Option<FileIdInfo> {
        let name = text(path);
        if self.unknown_volumes.contains(&name.as_str()) {
            return None;
        }
        let index = self.named(&name)?;
        Some(FileIdInfo { volume_serial: self.nodes[index].volume, file_id: index as u64 })
    }

    fn answer(&self, request: Request<'_>, visited: &mut VisitedSet) -> Reply {
        match request {
            Request::Stat { path, depth } => Reply::Entry(self.describe(path, depth)),
            Request::Describe { path, depth } => Reply::Entry(self.describe(path, depth)),
            Request::Volume { path } => Reply::Volume(self.volume(path)),
            Request::Identity { path } => Reply::Identity(make_visited_key(
                path,
                self.identity(&text(path)),
                None,
            )),
            Request::Claim { path } => {
                let key = make_visited_key(path, self.identity(&text(path)), None);
                Reply::Seen(check_visited(visited, key))
            }
            Request::Seen { path } => {
                let key = make_visited_key(path, self.identity(&text(path)), None);
                Reply::Seen(visited.contains(&key))
            }
            Request::TakePermit | Request::ReturnPermit => Reply::Done,
            Request::List { path } => Reply::Listing(self.list(path)),
            Request::Rules { path } => {
                let name = text(path);
                let mut files = IgnoreFiles { gitignore: vec![], rtignore: vec![] };
                for (dir, rules) in &self.rules {
                    if *dir == name {
                        files.gitignore.extend(rules.lines().map(|line| line.to_string()));
                    }
                }
                Reply::Rules(files)
            }
            Request::Streams { path } => {
                let name = text(path);
                let mut found = Vec::new();
                for (owner, streams) in &self.streams {
                    if *owner == name {
                        for stream in streams {
                            let name = stream.as_bytes().to_vec();
                            found.push(StreamInfo { name, size: 1 });
                        }
                    }
                }
                Reply::Streams(found)
            }
            Request::IsDir { path } => Reply::IsDir(self.leads_to_dir(&text(path))),
            Request::Write { .. } => Reply::Written(Ok(())),
        }
    }

    fn root_device(&self, config: &Config) -> Option<u64> {
        if config.one_fs {
            self.volume(&fs("/r")).map(|info| info.volume_serial)
        } else {
            None
        }
    }

    fn ordered(&self, config: &Config) -> (Vec<TreeError>, Option<Tree>) {
        let mut nobody = VisitedSet::new();
        let ignore = IgnoreMatcher::new(!config.no_ignore);
        let mut walk = OrderedWalk::start(config, fs("/r"), self.root_device(config), ignore);
        loop {
            let reply = match walk.request() {
                Some(request) => self.answer(request, &mut nobody),
                None => return walk.finish(),
            };
            walk = walk.resume(reply);
        }
    }

    fn run_task(
        &self,
        task: NodeTask,
        visited: &mut VisitedSet,
        limiter: &mut DirReadLimiter,
        backwards: bool,
    ) -> Outcome {
        let mut task = task;
        loop {
            let reply = match task.request() {
                Some(Request::TakePermit) => {
                    assert!(limiter.acquire());
                    Reply::Done
                }
                Some(Request::ReturnPermit) => {
                    limiter.release();
                    Reply::Done
                }
                Some(request) => {
                    if let Request::List { .. } = request {
                        assert!(!limiter.acquire());
                    }
                    self.answer(request, visited)
                }
                None => break,
            };
            task = task.resume(reply);
        }
        let width = task.width();
        let mut outcomes: Vec<Option<Outcome>> = (0..width).map(|_| None).collect();
        for i in 0..width {
            let i = if backwards { width - 1 - i } else { i };
            outcomes[i] = Some(self.run_task(task.branch(i), visited, limiter, backwards));
        }
        task.join(outcomes.into_iter().map(|outcome| outcome.unwrap()).collect()).finish()
    }

    fn parallel(&self, config: &Config, backwards: bool) -> (Vec<TreeError>, Option<Tree>) {
        let ignore = IgnoreMatcher::new(!config.no_ignore);
        let task = NodeTask::start(config, fs("/r"), self.root_device(config), ignore);
        let mut visited = VisitedSet::new();
        let mut limiter = DirReadLimiter::new(1);
        let outcome = self.run_task(task, &mut visited, &mut limiter, backwards);
        assert!(limiter.acquire());
        (outcome.errors, outcome.tree)
    }

    /// A parallel traversal in which it is left to a number which task goes on next.
    fn interleaved(&self, config: &Config, seed: u64) -> (Vec<TreeError>, Option<Tree>) {
        let ignore = IgnoreMatcher::new(!config.no_ignore);
        let root = NodeTask::start(config, fs("/r"), self.root_device(config), ignore);
        let mut visited = VisitedSet::new();
        let mut limiter = DirReadLimiter::new(2);
        let mut tasks = vec![running(root, None)];
        let mut random = seed;
        loop {
            random = random.wrapping_mul(6364136223846793005).wrapping_add(1442695040888963407);
            let index = (random >> 33) as usize % tasks.len();
            let mut current = match tasks[index].take() {
                Some(current) => current,
                None => continue,
            };
            let reply = match current.task.request() {
                Some(Request::TakePermit) => {
                    if !limiter.acquire() {
                        tasks[index] = Some(current);
                        continue;
                    }
                    Some(Reply::Done)
                }
                Some(Request::ReturnPermit) => {
                    limiter.release();
                    Some(Reply::Done)
                }
                Some(request) => Some(self.answer(request, &mut visited)),
                None => None,
            };
            if let Some(reply) = reply {
                current.task = current.task.resume(reply);
            } else if !current.forked {
                current.forked = true;
                current.waiting_for = current.task.width();
                for slot in 0..current.waiting_for {
                    current.outcomes.push(None);
                    tasks.push(running(current.task.branch(slot), Some((index, slot))));
                }
            } else if current.waiting_for == 0 {
                let outcomes = current.outcomes.into_iter().map(|found| found.unwrap()).collect();
                let outcome = current.task.join(outcomes).finish();
                match current.parent {
                    Some((parent, slot)) => {
                        let above = tasks[parent].as_mut().unwrap();
                        above.outcomes[slot] = Some(outcome);
                        above.waiting_for -= 1;
                    }
                    None => {
                        assert!(limiter.acquire() && limiter.acquire());
                        return (outcome.errors, outcome.tree);
                    }
                }
                continue;
            }
            tasks[index] = Some(current);
        }
    }

    fn streamed(
        &self,
        config: &Config,
        fail_at: Option<usize>,
    ) -> (Vec<String>, Result<StreamingResult, TreeError>) {
        let mut nobody = VisitedSet::new();
        let mut lines = Vec::new();
        let ignore = IgnoreMatcher::new(!config.no_ignore);
        let mut walk = StreamWalk::start(config, fs("/r"), self.root_device(config), ignore);
        loop {
            let reply = match walk.request() {
                Some(Request::Write { entry }) => {
                    if fail_at == Some(lines.len()) {
                        Reply::Written(Err(TreeError::Generic("pipe".to_string())))
                    } else {
                        lines.push(drawn(entry));
                        Reply::Written(Ok(()))
                    }
                }
                Some(request) => self.answer(request, &mut nobody),
                None => return (lines, walk.finish()),
            };
            walk = walk.resume(reply);
        }
    }
}

/// An entry as a line of output.
fn drawn(entry: &Entry) -> String {
    let mut line = String::new();
    for last in &entry.ancestors_last {
        line.push_str(if *last { "  " } else { "| " });
    }
    line.push_str(if entry.is_last { "`-" } else { "+-" });
    line.push_str(std::str::from_utf8(&entry.name).unwrap());
    if entry.recursive_link {
        line.push('*');
    }
    line
}

/// A tree as names with their children in brackets.
fn shape(tree: &Tree) -> String {
    let mut out = String::from_utf8(tree.entry.name.clone()).unwrap();
    if tree.entry.recursive_link {
        out.push('*');
    }
    if let Some(total) = tree.entry.filelimit_exceeded {
        out.push_str(&format!("#{total}"));
    }
    if !tree.children.is_empty() {
        let inner: Vec<String> = tree.children.iter().map(shape).collect();
        out.push_str(&format!("({})", inner.join(" ")));
    }
    out
}

fn found(result: &(Vec<TreeError>, Option<Tree>)) -> String {
    match &result.1 {
        Some(tree) => shape(tree),
        None => "nothing".to_string(),
    }
}

fn project() -> Fake {
    fake(vec![
        ("/r", Kind::Dir),
        ("/r/a", Kind::Dir),
        ("/r/a/one", Kind::File),
        ("/r/a/deep", Kind::Dir),
        ("/r/a/deep/two", Kind::File),
        ("/r/.hidden", Kind::File),
        ("/r/empty", Kind::Dir),
        ("/r/z", Kind::File),
    ])
}

#[test]
fn ordered_walk_builds_the_tree() {
    let result = project().ordered(&Config::default());
    assert_eq!(found(&result), "r(a(one deep(two)) empty z)");
    assert!(result.0.is_empty());
    let tree = result.1.unwrap();
    assert_eq!(tree.count_nodes(), 7);
    assert_eq!(tree.children[0].children[1].children[0].entry.depth, 3);
}

#[test]
fn options_decide_what_is_listed() {
    let config = Config::default();
    let all = Config { show_all: true, ..config };
    assert_eq!(found(&project().ordered(&all)), "r(a(one deep(two)) .hidden empty z)");
    let dirs = Config { dirs_only: true, ..config };
    assert_eq!(found(&project().ordered(&dirs)), "r(a(deep) empty)");
    for (max, shown) in [(0, "r"), (1, "r(a empty z)"), (2, "r(a(one deep) empty z)")] {
        let limited = Config { max_depth: Some(max), ..config };
        assert_eq!(found(&project().ordered(&limited)), shown);
    }
}

#[test]
fn missing_root_is_an_error() {
    let result = fake(vec![]).ordered(&Config::default());
    assert_eq!(found(&result), "nothing");
    assert_eq!(result.0, vec![TreeError::Generic("lost /r".to_string())]);
    let (lines, ended) = fake(vec![]).streamed(&Config::default(), None);
    assert!(lines.is_empty());
    assert_eq!(ended.err().unwrap(), TreeError::Generic("lost /r".to_string()));
}

#[test]
fn pruning_drops_nested_empty_directories() {
    let world = fake(vec![
        ("/r", Kind::Dir),
        ("/r/a", Kind::Dir),
        ("/r/a/b", Kind::Dir),
        ("/r/a/b/c", Kind::Dir),
        ("/r/k", Kind::Dir),
        ("/r/k/f", Kind::File),
        ("/r/wanted", Kind::Dir),
    ]);
    let config = Config { prune: true, ..Config::default() };
    assert_eq!(found(&world.ordered(&config)), "r(k(f) wanted)");
    assert_eq!(found(&world.ordered(&Config::default())), "r(a(b(c)) k(f) wanted)");
    let bare = fake(vec![("/r", Kind::Dir), ("/r/a", Kind::Dir)]);
    assert_eq!(found(&bare.ordered(&config)), "r");
}

#[test]
fn directories_over_the_limit_stay_closed() {
    let world = Fake { file_limit: Some(1), ..fake(vec![
        ("/r", Kind::Dir),
        ("/r/a", Kind::Dir),
        ("/r/a/x", Kind::File),
        ("/r/a/y", Kind::File),
    ]) };
    assert_eq!(found(&world.ordered(&Config::default())), "r(a#2)");
    let (lines, _) = world.streamed(&Config::default(), None);
    assert_eq!(lines, vec!["+-r", "`-a"]);
}

#[test]
fn unreadable_directories_are_reported() {
    let mut world = project();
    world.unreadable.push(("/r/a", IoFault::AccessDenied));
    world.unreadable.push(("/r/empty", IoFault::Other("io".to_string())));
    let result = world.ordered(&Config::default());
    assert_eq!(found(&result), "r(a empty z)");
    assert_eq!(
        result.0,
        vec![
            TreeError::AccessDenied(fs("/r/a")),
            TreeError::Io(fs("/r/empty"), IoFault::Other("io".to_string())),
        ]
    );
    let (lines, ended) = world.streamed(&Config::default(), None);
    assert_eq!(lines, vec!["+-r", "+-a", "+-empty", "`-z"]);
    assert_eq!(ended.unwrap().errors, result.0);
}

#[test]
fn reserved_and_excluded_names_are_left_out() {
    let mut world = fake(vec![
        ("/r", Kind::Dir),
        ("/r/NUL", Kind::File),
        ("/r/no_way", Kind::Dir),
        ("/r/ok", Kind::File),
        ("/r/gone", Kind::File),
    ]);
    world.undescribable.push("/r/gone");
    let result = world.ordered(&Config::default());
    assert_eq!(found(&result), "r(ok)");
    let expected = vec![
        TreeError::ReservedName(fs("/r/NUL")),
        TreeError::Generic("lost /r/gone".to_string()),
    ];
    assert_eq!(result.0, expected);
    let (lines, ended) = world.streamed(&Config::default(), None);
    assert_eq!(lines, vec!["+-r", "+-ok"]);
    assert_eq!(ended.unwrap().errors, expected);
}

#[test]
fn followed_links_do_not_loop() {
    let world = fake(vec![
        ("/r", Kind::Dir),
        ("/r/d", Kind::Dir),
        ("/r/d/up", Kind::Link("/r")),
        ("/r/d/out", Kind::Link("/elsewhere")),
        ("/r/d/dead", Kind::Link("/nowhere")),
        ("/elsewhere", Kind::Dir),
        ("/elsewhere/f", Kind::File),
    ]);
    let config = Config::default();
    assert_eq!(found(&world.ordered(&config)), "r(d(up out dead))");
    let followed = Config { follow_symlinks: true, ..config };
    let result = world.ordered(&followed);
    assert_eq!(found(&result), "r(d(up* out(f) dead))");
    assert_eq!(result.0, vec![TreeError::SymlinkLoop(fs("/r/d/up"))]);
    let (lines, ended) = world.streamed(&followed, None);
    assert_eq!(
        lines,
        vec!["+-r", "`-d", "  +-up*", "  +-out", "  | `-f", "  `-dead"]
    );
    assert!(ended.unwrap().errors.is_empty());
}

#[test]
fn junctions_are_entered_on_request_and_once() {
    let world = fake(vec![
        ("/r", Kind::Dir),
        ("/r/j", Kind::Junction("/r")),
        ("/r/k", Kind::Junction("/else")),
        ("/else", Kind::Dir),
        ("/else/f", Kind::File),
    ]);
    assert_eq!(found(&world.ordered(&Config::default())), "r(j k)");
    let shown = Config { show_junctions: true, ..Config::default() };
    assert_eq!(found(&world.ordered(&shown)), "r(j* k(f))");
    let (lines, _) = world.streamed(&shown, None);
    assert_eq!(lines, vec!["+-r", "+-j*", "`-k", "  `-f"]);
}

#[test]
fn one_fs_stays_on_the_volume() {
    let mut world = fake(vec![
        ("/r", Kind::Dir),
        ("/r/m", Kind::Dir),
        ("/r/m/f", Kind::File),
        ("/r/u", Kind::Dir),
        ("/r/u/g", Kind::File),
    ]);
    world.nodes[1].volume = 2;
    world.unknown_volumes.push("/r/u");
    let config = Config { one_fs: true, ..Config::default() };
    let result = world.ordered(&config);
    assert_eq!(found(&result), "r(m u)");
    let unknown = vec![TreeError::Io(fs("/r/u"), IoFault::UnknownVolume)];
    assert_eq!(result.0, unknown);
    let (lines, ended) = world.streamed(&config, None);
    assert_eq!(lines, vec!["+-r", "+-m", "`-u"]);
    assert_eq!(ended.unwrap().errors, unknown);
    assert_eq!(found(&world.ordered(&Config::default())), "r(m(f) u(g))");

    world.unknown_volumes.push("/r");
    let result = world.ordered(&config);
    assert_eq!(found(&result), "r(m(f) u(g))");
    assert_eq!(result.0, vec![TreeError::Io(fs("/r"), IoFault::UnknownRootVolume)]);
    assert_eq!(world.parallel(&config, false).0, result.0);
    let (_, ended) = world.streamed(&config, None);
    assert_eq!(ended.unwrap().errors, result.0);
}

#[test]
fn ignore_rules_hold_below_their_directory() {
    let mut world = fake(vec![
        ("/r", Kind::Dir),
        ("/r/a.o", Kind::File),
        ("/r/d", Kind::Dir),
        ("/r/d/b.o", Kind::File),
        ("/r/d/c", Kind::File),
        ("/r/d/t", Kind::Dir),
        ("/r/e", Kind::Dir),
        ("/r/e/c", Kind::File),
    ]);
    world.rules.push(("/r", "*.o"));
    world.rules.push(("/r/d", "c\nt/"));
    let config = Config::default();
    assert_eq!(found(&world.ordered(&config)), "r(d e(c))");
    assert_eq!(found(&world.parallel(&config, true)), "r(d e(c))");
    let (lines, _) = world.streamed(&config, None);
    assert_eq!(lines, vec!["+-r", "+-d", "`-e", "  `-c"]);
    let off = Config { no_ignore: true, ..config };
    assert_eq!(found(&world.ordered(&off)), "r(a.o d(b.o c t) e(c))");
}

#[test]
fn streams_lie_below_their_files() {
    let mut world = fake(vec![
        ("/r", Kind::Dir),
        ("/r/f", Kind::File),
        ("/r/d", Kind::Dir),
        ("/r/d/g", Kind::File),
    ]);
    world.streams.push(("/r/f", vec!["s1", "s2"]));
    world.streams.push(("/r/d/g", vec!["s3"]));
    let config = Config { show_streams: true, ..Config::default() };
    let result = world.ordered(&config);
    assert_eq!(found(&result), "r(f(s1 s2) d(g(s3)))");
    assert_eq!(result.1.unwrap().children[0].children[0].entry.depth, 2);
    let (lines, _) = world.streamed(&config, None);
    assert_eq!(
        lines,
        vec!["+-r", "+-f", "| +-s1", "| `-s2", "`-d", "  `-g", "    `-s3"]
    );
    assert_eq!(found(&world.ordered(&Config::default())), "r(f d(g))");
}

#[test]
fn streaming_draws_the_tree() {
    let (lines, ended) = project().streamed(&Config::default(), None);
    assert_eq!(
        lines,
        vec!["+-r", "+-a", "| +-one", "| `-deep", "|   `-two", "+-empty", "`-z"]
    );
    let result = ended.unwrap();
    assert!(result.errors.is_empty());
    assert!(!result.truncated);
    let limited = Config { max_depth: Some(1), ..Config::default() };
    let (lines, _) = project().streamed(&limited, None);
    assert_eq!(lines, vec!["+-r", "+-a", "+-empty", "`-z"]);
    let root_only = Config { max_depth: Some(0), ..Config::default() };
    assert_eq!(project().streamed(&root_only, None).0, vec!["+-r"]);
}

/// The names in a tree, each before those below it.
fn names_in(tree: &Tree, names: &mut Vec<String>) {
    names.push(String::from_utf8(tree.entry.name.clone()).unwrap());
    for child in &tree.children {
        names_in(child, names);
    }
}

#[test]
fn both_engines_list_the_same_entries() {
    let mut world = project();
    world.rules.push(("/r", "one"));
    world.unreadable.push(("/r/empty", IoFault::AccessDenied));
    let base = Config::default();
    for config in [
        base,
        Config { show_all: true, ..base },
        Config { dirs_only: true, ..base },
        Config { max_depth: Some(0), ..base },
        Config { max_depth: Some(2), no_ignore: true, ..base },
        Config { one_fs: true, ..base },
    ] {
        let (errors, tree) = world.ordered(&config);
        let mut names = Vec::new();
        names_in(&tree.unwrap(), &mut names);
        let (lines, ended) = world.streamed(&config, None);
        let drawn_names: Vec<String> = lines
            .iter()
            .map(|line| line[line.rfind(['+', '`']).unwrap() + 2..].to_string())
            .collect();
        assert_eq!(drawn_names, names);
        assert_eq!(ended.unwrap().errors, errors);
    }
}

#[test]
fn entry_limit_cuts_the_output() {
    let (whole, _) = project().streamed(&Config::default(), None);
    for max in 0..8 {
        let config = Config { max_entries: Some(max), ..Config::default() };
        let (lines, ended) = project().streamed(&config, None);
        let cut = max < 6;
        assert_eq!(ended.unwrap().truncated, cut);
        let shown = if cut { max + 1 } else { whole.len() };
        assert_eq!(lines, whole[..shown].to_vec());
        let result = project().ordered(&config);
        assert_eq!(found(&result), found(&project().ordered(&Config::default())));
        assert_eq!(finish_traversal(&config, result.0, result.1).truncated, cut);
    }
}

#[test]
fn entry_limit_counts_streams() {
    let mut world = fake(vec![("/r", Kind::Dir), ("/r/f", Kind::File), ("/r/g", Kind::File)]);
    world.streams.push(("/r/f", vec!["s1", "s2"]));
    let config = Config { show_streams: true, max_entries: Some(2), ..Config::default() };
    let (lines, ended) = world.streamed(&config, None);
    assert_eq!(lines, vec!["+-r", "+-f", "| +-s1"]);
    assert!(ended.unwrap().truncated);
    let config = Config { max_entries: Some(4), ..config };
    let (lines, ended) = world.streamed(&config, None);
    assert_eq!(lines.len(), 5);
    assert!(!ended.unwrap().truncated);
}

#[test]
fn output_failure_ends_the_traversal() {
    for fail_at in 0..7 {
        let (lines, ended) = project().streamed(&Config::default(), Some(fail_at));
        assert_eq!(lines.len(), fail_at);
        assert_eq!(ended.err().unwrap(), TreeError::Generic("pipe".to_string()));
    }
}

#[test]
fn parallel_order_does_not_show() {
    let mut world = project();
    world.unreadable.push(("/r/empty", IoFault::AccessDenied));
    world.streams.push(("/r/a/one", vec!["s"]));
    world.rules.push(("/r/a", "two"));
    let base = Config::default();
    for config in [
        base,
        Config { show_all: true, show_streams: true, ..base },
        Config { prune: true, ..base },
        Config { max_depth: Some(2), dirs_only: true, ..base },
    ] {
        let sequential = world.ordered(&config);
        for backwards in [false, true] {
            let parallel = world.parallel(&config, backwards);
            assert_eq!(found(&parallel), found(&sequential));
            assert_eq!(parallel.0, sequential.0);
        }
    }
}

#[test]
fn parallel_tasks_share_what_they_entered() {
    let world = fake(vec![
        ("/r", Kind::Dir),
        ("/r/d", Kind::Dir),
        ("/r/d/f", Kind::File),
        ("/r/l", Kind::Link("/r/d")),
    ]);
    let config = Config { follow_symlinks: true, ..Config::default() };
    let forwards = world.parallel(&config, false);
    assert_eq!(found(&forwards), "r(d(f) l*)");
    assert_eq!(forwards.0, vec![TreeError::SymlinkLoop(fs("/r/l"))]);
    let backwards = world.parallel(&config, true);
    assert_eq!(found(&backwards), "r(d* l(f))");
    assert_eq!(found(&world.ordered(&config)), "r(d(f) l*)");
}

#[test]
fn loops_look_the_same_in_both_modes() {
    let world = fake(vec![
        ("/r", Kind::Dir),
        ("/r/d", Kind::Dir),
        ("/r/d/up", Kind::Link("/r")),
        ("/r/d/here", Kind::Link("/r/d")),
        ("/r/d/back", Kind::Junction("/r")),
        ("/r/d/out", Kind::Link("/elsewhere")),
        ("/r/z", Kind::File),
        ("/elsewhere", Kind::Dir),
        ("/elsewhere/again", Kind::Link("/elsewhere")),
        ("/elsewhere/home", Kind::Link("/r/d")),
    ]);
    let config = Config { follow_symlinks: true, show_junctions: true, ..Config::default() };
    let sequential = world.ordered(&config);
    assert_eq!(found(&sequential), "r(d(up* here* back* out(again* home*)) z)");
    assert_eq!(
        sequential.0,
        vec![
            TreeError::SymlinkLoop(fs("/r/d/up")),
            TreeError::SymlinkLoop(fs("/r/d/here")),
            TreeError::SymlinkLoop(fs("/r/d/out/again")),
            TreeError::SymlinkLoop(fs("/r/d/out/home")),
        ]
    );
    for backwards in [false, true] {
        let parallel = world.parallel(&config, backwards);
        assert_eq!(found(&parallel), found(&sequential));
        assert_eq!(parallel.0, sequential.0);
    }
    for seed in 0..50 {
        let parallel = world.interleaved(&config, seed);
        assert_eq!(found(&parallel), found(&sequential));
        assert_eq!(parallel.0, sequential.0);
    }
}

#[test]
fn every_schedule_finds_the_same() {
    let mut world = project();
    world.unreadable.push(("/r/empty", IoFault::AccessDenied));
    world.undescribable.push("/r/z");
    world.streams.push(("/r/a/one", vec!["s"]));
    world.rules.push(("/r/a", "two"));
    let base = Config::default();
    for config in [
        base,
        Config { show_all: true, show_streams: true, ..base },
        Config { prune: true, no_ignore: true, ..base },
    ] {
        let sequential = world.ordered(&config);
        for seed in 0..50 {
            let parallel = world.interleaved(&config, seed);
            assert_eq!(found(&parallel), found(&sequential));
            assert_eq!(parallel.0, sequential.0);
        }
    }
}

#[test]
fn both_engines_list_junctions_alike() {
    for junctions_as_links in [false, true] {
        let mut world = fake(vec![
            ("/r", Kind::Dir),
            ("/r/d", Kind::Dir),
            ("/r/d/j", Kind::Junction("/else")),
            ("/r/k", Kind::Junction("/r")),
            ("/r/l", Kind::Link("/else")),
            ("/else", Kind::Dir),
            ("/else/f", Kind::File),
        ]);
        world.junctions_as_links = junctions_as_links;
        let result = world.ordered(&Config::default());
        assert_eq!(found(&result), "r(d(j) k l)");
        let (lines, ended) = world.streamed(&Config::default(), None);
        assert_eq!(lines, vec!["+-r", "+-d", "| `-j", "+-k", "`-l"]);
        assert_eq!(ended.unwrap().errors, result.0);
    }
}

#[test]
fn permits_are_held_only_while_reading() {
    let mut world = project();
    world.unreadable.push(("/r/a/deep", IoFault::AccessDenied));
    let config = Config { no_ignore: true, ..Config::default() };
    let mut task =
        NodeTask::start(&config, fs("/r"), None, IgnoreMatcher::new(!config.no_ignore));
    let mut visited = VisitedSet::new();
    let mut asked = Vec::new();
    loop {
        let reply = match task.request() {
            Some(request) => {
                asked.push(match request {
                    Request::TakePermit => "take",
                    Request::ReturnPermit => "return",
                    Request::List { .. } => "list",
                    Request::Claim { .. } => "claim",
                    _ => "other",
                });
                world.answer(request, &mut visited)
            }
            None => break,
        };
        task = task.resume(reply);
    }
    assert_eq!(asked, vec!["other", "claim", "take", "list", "return"]);
    assert_eq!(task.width(), 4);
    let mut limiter = DirReadLimiter::new(1);
    let outcome = world.run_task(task, &mut visited, &mut limiter, false);
    assert_eq!(outcome.errors, vec![TreeError::AccessDenied(fs("/r/a/deep"))]);
    assert!(limiter.acquire());
}

fn assert_depths(tree: &Tree, depth: usize) {
    assert_eq!(tree.entry.depth, depth);
    for child in &tree.children {
        assert_depths(child, depth + 1);
    }
}

fn deepest(tree: &Tree) -> usize {
    tree.children.iter().map(deepest).max().unwrap_or(tree.entry.depth)
}

#[test]
fn nodes_carry_their_depths() {
    let mut world = project();
    world.streams.push(("/r/z", vec!["s"]));
    for (max, expected) in [(None, 3), (Some(0), 0), (Some(1), 1), (Some(2), 2), (Some(9), 3)] {
        let config = Config { max_depth: max, ..Config::default() };
        let tree = world.ordered(&config).1.unwrap();
        assert_depths(&tree, 0);
        assert_eq!(deepest(&tree), expected);
    }
    let config = Config { max_depth: Some(1), show_streams: true, ..Config::default() };
    let tree = world.ordered(&config).1.unwrap();
    assert_depths(&tree, 0);
    assert_eq!(deepest(&tree), 2);
}

fn paths_in(tree: &Tree, paths: &mut Vec<String>) {
    if tree.entry.entry_type != EntryType::Stream {
        paths.push(text(&tree.entry.path));
    }
    for child in &tree.children {
        paths_in(child, paths);
    }
}

#[test]
fn no_path_is_listed_twice() {
    let mut world = fake(vec![
        ("/r", Kind::Dir),
        ("/r/d", Kind::Dir),
        ("/r/d/f", Kind::File),
        ("/r/l", Kind::Link("/r/d")),
        ("/r/m", Kind::Link("/else")),
        ("/r/f", Kind::File),
        ("/else", Kind::Dir),
        ("/else/f", Kind::File),
        ("/else/up", Kind::Link("/r")),
    ]);
    world.streams.push(("/r/f", vec!["s", "t"]));
    let base = Config { show_streams: true, ..Config::default() };
    for config in [base, Config { follow_symlinks: true, ..base }] {
        let mut paths = Vec::new();
        paths_in(&world.ordered(&config).1.unwrap(), &mut paths);
        let listed = paths.len();
        paths.sort();
        paths.dedup();
        assert_eq!(paths.len(), listed);
        assert_eq!(listed, if config.follow_symlinks { 8 } else { 6 });
    }
}

#[test]
fn streaming_reads_no_directory_twice() {
    let world = fake(vec![
        ("/r", Kind::Dir),
        ("/r/d", Kind::Dir),
        ("/r/d/up", Kind::Link("/r")),
        ("/r/l", Kind::Link("/r/d")),
        ("/r/j", Kind::Junction("/r/d")),
        ("/r/m", Kind::Link("/else")),
        ("/else", Kind::Dir),
        ("/else/back", Kind::Link("/r/d")),
        ("/else/self", Kind::Link("/else")),
    ]);
    let config = Config { follow_symlinks: true, show_junctions: true, ..Config::default() };
    let mut nobody = VisitedSet::new();
    let mut read = Vec::new();
    let mut walk = StreamWalk::start(&config, fs("/r"), None, IgnoreMatcher::new(true));
    loop {
        let reply = match walk.request() {
            Some(request) => {
                if let Request::List { path } = &request {
                    read.push(world.resolve(&text(path)));
                }
                world.answer(request, &mut nobody)
            }
            None => break,
        };
        walk = walk.resume(reply);
    }
    assert_eq!(read, vec!["/r", "/r/d", "/else"]);
    let (lines, ended) = world.streamed(&config, None);
    assert_eq!(
        lines,
        vec!["+-r", "+-d", "| `-up*", "+-l*", "+-j*", "`-m", "  +-back*", "  `-self*"]
    );
    assert!(ended.unwrap().errors.is_empty());
}

#[test]
fn both_engines_list_a_file_as_root() {
    let mut world = fake(vec![("/r", Kind::File)]);
    world.unreadable.push(("/r", IoFault::AccessDenied));
    let expected = vec![TreeError::AccessDenied(fs("/r"))];
    let result = world.ordered(&Config::default());
    assert_eq!(found(&result), "r");
    assert_eq!(result.0, expected);
    let (lines, ended) = world.streamed(&Config::default(), None);
    assert_eq!(lines, vec!["+-r"]);
    let ended = ended.unwrap();
    assert_eq!(ended.errors, expected);
    assert!(!ended.truncated);
}

/// A directory without end.
fn endless(request: Request<'_>) -> Reply {
    let directory = |path: &FsPath, depth: usize| Entry {
        path: path.clone(),
        name: vec![100],
        entry_type: EntryType::Directory,
        metadata: None,
        depth,
        is_last: false,
        ancestors_last: vec![],
        filelimit_exceeded: None,
        recursive_link: false,
    };
    match request {
        Request::Stat { path, depth } => Reply::Entry(Ok(directory(path, depth))),
        Request::Describe { path, depth } => Reply::Entry(Ok(directory(path, depth))),
        Request::Identity { path } => Reply::Identity(make_visited_key(path, None, None)),
        Request::List { path } => {
            let number: usize = text(path)[1..].parse().unwrap();
            let items = vec![DirItem {
                path: fs(&format!("/{}", number + 1)),
                name: vec![100],
                kind: Some(FileKind::Dir),
                link_to_dir: false,
                rank: 0,
                reserved: false,
                excluded: false,
                included: true,
                dir_included: false,
            }];
            Reply::Listing(read_sorted_children(Ok(Ok(items))))
        }
        Request::Write { .. } => Reply::Written(Ok(())),
        _ => Reply::IsDir(false),
    }
}

#[test]
fn endless_nesting_is_cut() {
    let config = Config::default();
    let mut walk = OrderedWalk::start(&config, fs("/0"), None, IgnoreMatcher::new(false));
    loop {
        let reply = match walk.request() {
            Some(request) => endless(request),
            None => break,
        };
        walk = walk.resume(reply);
    }
    let (errors, tree) = walk.finish();
    assert_eq!(errors, vec![TreeError::MaxDepthExceeded(fs("/4096"))]);
    let mut depth = 0;
    let mut node = tree.as_ref().unwrap();
    while let Some(child) = node.children.first() {
        node = child;
        depth += 1;
    }
    assert_eq!(depth, 4095);
}

#[test]
fn endless_streaming_is_cut() {
    let config = Config::default();
    let mut walk = StreamWalk::start(&config, fs("/0"), None, IgnoreMatcher::new(false));
    let mut written = 0;
    loop {
        let reply = match walk.request() {
            Some(request) => {
                if matches!(request, Request::Write { .. }) {
                    written += 1;
                }
                endless(request)
            }
            None => break,
        };
        walk = walk.resume(reply);
    }
    assert_eq!(written, 4096);
    let result = walk.finish().unwrap();
    assert_eq!(result.errors, vec![TreeError::MaxDepthExceeded(fs("/4095"))]);
    assert!(!result.truncated);
}

#[test]
fn answers_to_other_questions_change_nothing() {
    let config = Config::default();
    let walk = OrderedWalk::start(&config, fs("/r"), None, IgnoreMatcher::new(false));
    let walk = walk.resume(Reply::IsDir(true));
    assert!(matches!(walk.request(), Some(Request::Stat { depth: 0, .. })));
    let walk = StreamWalk::start(&config, fs("/r"), None, IgnoreMatcher::new(false));
    let walk = walk.resume(Reply::Volume(None));
    assert!(matches!(walk.request(), Some(Request::Stat { depth: 0, .. })));
    let task = NodeTask::start(&config, fs("/r"), None, IgnoreMatcher::new(false));
    let task = task.resume(Reply::Streams(vec![]));
    assert!(matches!(task.request(), Some(Request::Stat { depth: 0, .. })));
    assert_eq!(task.width(), 0);
    assert!(task.branch(3).finish().tree.is_none());
}
