//! Entries and the trees that they form.

use crate::error::TreeError;
use crate::path::{copy_bytes, FsPath};
use vstd::prelude::*;

verus! {

/// What kind of thing an entry is.
#[derive(Clone, Debug, PartialEq, Eq)]
pub enum EntryType {
    File,
    Directory,
    /// A symbolic link; `broken` if its target does not exist.
    Symlink { target: FsPath, broken: bool },
    /// A junction point.
    Junction { target: FsPath },
    /// An alternate data stream of a file.
    Stream,
}

/// The identity that the operating system gives a file.
#[derive(Clone, Copy, Debug, PartialEq, Eq)]
pub struct FileIdInfo {
    /// Volume serial number, or device number.
    pub volume_serial: u64,
    /// File identifier on the volume, or inode number.
    pub file_id: u64,
}

/// Metadata that entries carry for display.
#[derive(Clone, Debug, PartialEq, Eq)]
pub struct Metadata {
    pub size: u64,
    pub modified: Option<i64>,
    pub permissions: Option<String>,
    pub file_id: Option<FileIdInfo>,
}

/// A file system entry as it is listed.
#[derive(Clone, Debug, PartialEq, Eq)]
pub struct Entry {
    pub path: FsPath,
    pub name: Vec<u8>,
    pub entry_type: EntryType,
    pub metadata: Option<Metadata>,
    /// Levels below the traversal root.
    pub depth: usize,
    /// Whether the entry is the last of its siblings.
    pub is_last: bool,
    /// For each level above, whether the ancestor there is the last of its siblings.
    pub ancestors_last: Vec<bool>,
    /// The number of entries of a directory that has too many to be opened.
    pub filelimit_exceeded: Option<usize>,
    /// Whether the entry leads to a directory that was visited already.
    pub recursive_link: bool,
}

/// An entry with its vectors as sequences.
pub struct EntryView {
    pub path: FsPath,
    pub name: Seq<u8>,
    pub entry_type: EntryType,
    pub metadata: Option<Metadata>,
    pub depth: usize,
    pub is_last: bool,
    pub ancestors_last: Seq<bool>,
    pub filelimit_exceeded: Option<usize>,
    pub recursive_link: bool,
}

impl View for Entry {
    type V = EntryView;

    open spec fn view(&self) -> EntryView {
        EntryView {
            path: self.path,
            name: self.name@,
            entry_type: self.entry_type,
            metadata: self.metadata,
            depth: self.depth,
            is_last: self.is_last,
            ancestors_last: self.ancestors_last@,
            filelimit_exceeded: self.filelimit_exceeded,
            recursive_link: self.recursive_link,
        }
    }
}

/// An alternate data stream of a file.
#[derive(Clone, Debug, PartialEq, Eq)]
pub struct StreamInfo {
    pub name: Vec<u8>,
    pub size: u64,
}

/// The entry for a stream of the file at `path`.
pub open spec fn stream_entry(path: FsPath, stream: StreamInfo, depth: usize) -> EntryView {
    EntryView {
        path,
        name: stream.name@,
        entry_type: EntryType::Stream,
        metadata: Some(
            Metadata { size: stream.size, modified: None, permissions: None, file_id: None },
        ),
        depth,
        is_last: false,
        ancestors_last: Seq::empty(),
        filelimit_exceeded: None,
        recursive_link: false,
    }
}

impl Entry {
    /// The entry for a stream of the file at `path`.
    pub fn from_ads(path: &FsPath, stream: &StreamInfo, depth: usize) -> (result: Entry)
        ensures
            result@ == stream_entry(*path, *stream, depth),
    {
        Entry {
            path: path.clone(),
            name: copy_bytes(&stream.name),
            entry_type: EntryType::Stream,
            metadata: Some(
                Metadata { size: stream.size, modified: None, permissions: None, file_id: None },
            ),
            depth,
            is_last: false,
            ancestors_last: Vec::new(),
            filelimit_exceeded: None,
            recursive_link: false,
        }
    }
}

/// An entry with what was found below it.
#[derive(Debug)]
pub struct Tree {
    pub entry: Entry,
    pub children: Vec<Tree>,
}

/// A tree with its vectors as sequences.
pub struct TreeView {
    pub entry: EntryView,
    pub children: Seq<TreeView>,
}

/// The views of a sequence of trees.
pub open spec fn forest(trees: Seq<Tree>) -> Seq<TreeView>
    decreases trees,
{
    Seq::new(
        trees.len(),
        |i: int|
            if 0 <= i < trees.len() {
                TreeView { entry: trees[i].entry@, children: forest(trees[i].children@) }
            } else {
                arbitrary()
            },
    )
}

impl View for Tree {
    type V = TreeView;

    open spec fn view(&self) -> TreeView {
        TreeView { entry: self.entry@, children: forest(self.children@) }
    }
}

/// The number of nodes of the trees in a sequence.
pub open spec fn count_forest(trees: Seq<TreeView>) -> nat
    decreases trees,
{
    if trees.len() == 0 {
        0
    } else {
        trees[0].count() + count_forest(trees.subrange(1, trees.len() as int))
    }
}

impl TreeView {
    /// The number of nodes of the tree, its root included.
    pub open spec fn count(self) -> nat
        decreases self,
    {
        1 + count_forest(self.children)
    }
}

/// A tree of one node.
pub open spec fn leaf(entry: EntryView) -> TreeView {
    TreeView { entry, children: Seq::empty() }
}

/// Create a leaf tree node (no children).
pub fn leaf_node(entry: Entry) -> (result: Tree)
    ensures
        result.entry == entry,
        result.children@.len() == 0,
        result@ == leaf(entry@),
{
    let result = Tree { entry, children: Vec::new() };
    assert(forest(result.children@) =~= Seq::empty());
    result
}

/// The forest of a sequence, element by element.
pub proof fn lemma_forest_index(trees: Seq<Tree>, i: int)
    requires
        0 <= i < trees.len(),
    ensures
        forest(trees).len() == trees.len(),
        forest(trees)[i] == trees[i]@,
{
}

/// Appending a tree appends its view.
pub proof fn lemma_forest_push(trees: Seq<Tree>, tree: Tree)
    ensures
        forest(trees.push(tree)) == forest(trees).push(tree@),
{
    assert(forest(trees.push(tree)) =~= forest(trees).push(tree@));
}

/// Counting distributes over concatenation.
pub proof fn lemma_count_concat(front: Seq<TreeView>, back: Seq<TreeView>)
    ensures
        count_forest(front + back) == count_forest(front) + count_forest(back),
    decreases front.len(),
{
    if front.len() == 0 {
        assert(front + back =~= back);
    } else {
        let rest = front.subrange(1, front.len() as int);
        lemma_count_concat(rest, back);
        assert((front + back).subrange(1, (front + back).len() as int) =~= rest + back);
    }
}

/// One tree more adds its own nodes.
proof fn lemma_count_prefix(trees: Seq<TreeView>, i: int)
    requires
        0 <= i < trees.len(),
    ensures
        count_forest(trees.take(i + 1)) == count_forest(trees.take(i)) + trees[i].count(),
        count_forest(trees.take(i + 1)) <= count_forest(trees),
{
    let one = seq![trees[i]];
    assert(trees.take(i + 1) =~= trees.take(i) + one);
    lemma_count_concat(trees.take(i), one);
    assert(one.subrange(1, 1) =~= Seq::empty());
    assert(count_forest(one.subrange(1, 1)) == 0);
    assert(count_forest(one) == trees[i].count());
    assert(trees =~= trees.take(i + 1) + trees.skip(i + 1));
    lemma_count_concat(trees.take(i + 1), trees.skip(i + 1));
}

/// `value`, or the largest machine size where `value` is larger.
pub open spec fn capped(value: nat) -> nat {
    if value <= usize::MAX {
        value
    } else {
        usize::MAX as nat
    }
}

impl Tree {
    /// The number of nodes of the tree, its root included; the largest machine size if
    /// there were more.
    pub fn count_nodes(&self) -> (result: usize)
        ensures
            result == capped(self@.count()),
        decreases self,
    {
        let mut total: usize = 1;
        let mut i: usize = 0;
        let ghost views = forest(self.children@);
        assert(views.take(0) =~= Seq::empty());
        while i < self.children.len()
            invariant
                i <= self.children@.len(),
                views == forest(self.children@),
                views.len() == self.children@.len(),
                total == capped(1 + count_forest(views.take(i as int))),
            decreases self.children@.len() - i,
        {
            proof {
                lemma_forest_index(self.children@, i as int);
                lemma_count_prefix(views, i as int);
                assert(decreases_to!(self => self.children@[i as int]));
            }
            let below: usize = self.children[i].count_nodes();
            total = total.saturating_add(below);
            i = i + 1;
        }
        assert(views.take(views.len() as int) =~= views);
        total
    }
}

/// The trees of the streams of the file at `path`.
pub open spec fn stream_trees(
    path: FsPath,
    streams: Seq<StreamInfo>,
    depth: usize,
) -> Seq<TreeView> {
    Seq::new(streams.len(), |i: int| leaf(stream_entry(path, streams[i], depth)))
}

/// The alternate data streams of the file at `path` as child nodes at the given depth, in
/// the order in which the platform lists them.
pub fn collect_ads_children(path: &FsPath, streams: &Vec<StreamInfo>, depth: usize) -> (result:
    Vec<Tree>)
    ensures
        forest(result@) == stream_trees(*path, streams@, depth),
{
    let mut result: Vec<Tree> = Vec::new();
    let mut i: usize = 0;
    assert(forest(result@) =~= stream_trees(*path, streams@.take(0), depth));
    while i < streams.len()
        invariant
            i <= streams@.len(),
            forest(result@) == stream_trees(*path, streams@.take(i as int), depth),
        decreases streams@.len() - i,
    {
        let node = leaf_node(Entry::from_ads(path, &streams[i], depth));
        proof {
            lemma_forest_push(result@, node);
        }
        result.push(node);
        assert(forest(result@) =~= stream_trees(*path, streams@.take(i + 1), depth));
        i = i + 1;
    }
    assert(streams@.take(streams@.len() as int) =~= streams@);
    result
}

/// A file with its streams below it, where streams are shown.
pub open spec fn file_tree(
    entry: EntryView,
    path: FsPath,
    depth: usize,
    show_streams: bool,
    streams: Seq<StreamInfo>,
) -> TreeView {
    TreeView {
        entry,
        children: if show_streams {
            stream_trees(path, streams, (depth + 1) as usize)
        } else {
            Seq::empty()
        },
    }
}

/// Create a tree node for the file entry at `path`, with its streams as children where they
/// are shown.
///
/// `described` is what reading the directory entry gave, `streams` the streams that the
/// platform lists for `path`.
pub fn make_file_node(
    described: Result<Entry, TreeError>,
    path: &FsPath,
    depth: usize,
    show_streams: bool,
    streams: &Vec<StreamInfo>,
) -> (result: Result<Tree, TreeError>)
    requires
        show_streams ==> depth < usize::MAX,
    ensures
        match described {
            Ok(entry) => {
                &&& result is Ok
                &&& result->Ok_0.entry == entry
                &&& result->Ok_0@ == file_tree(entry@, *path, depth, show_streams, streams@)
            },
            Err(error) => result == Err::<Tree, TreeError>(error),
        },
{
    match described {
        Ok(entry) => {
            if show_streams {
                let children = collect_ads_children(path, streams, depth + 1);
                Ok(Tree { entry, children })
            } else {
                Ok(leaf_node(entry))
            }
        },
        Err(error) => Err(error),
    }
}

/// An entry marked as leading to a directory that was visited already.
pub open spec fn as_recursive(entry: EntryView) -> EntryView {
    EntryView { recursive_link: true, ..entry }
}

/// Create a leaf node marked as a recursive symlink.
///
/// `described` is what reading the directory entry gave.
pub fn make_recursive_link_node(described: Result<Entry, TreeError>) -> (result: Result<
    Tree,
    TreeError,
>)
    ensures
        match described {
            Ok(entry) => {
                &&& result is Ok
                &&& result->Ok_0@ == leaf(as_recursive(entry@))
            },
            Err(error) => result == Err::<Tree, TreeError>(error),
        },
{
    match described {
        Ok(entry) => {
            let mut entry = entry;
            entry.recursive_link = true;
            Ok(leaf_node(entry))
        },
        Err(error) => Err(error),
    }
}

} // verus!
