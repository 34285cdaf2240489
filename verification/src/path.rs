//! Paths as sequences of components.

use crate::shared::share;
use std::sync::Arc;
use vstd::prelude::*;

verus! {

/// The byte that separates two components in a rendered path.
pub const SEPARATOR: u8 = 47;

/// One component of a path, as the platform splits it. Names are kept as the platform's
/// encoded bytes, so names that are not valid text survive.
#[derive(Clone, Debug, PartialEq, Eq, Hash)]
pub enum PathPart {
    /// A drive, share or other prefix that precedes the root.
    Prefix(Vec<u8>),
    /// The root directory.
    RootDir,
    /// The current directory, `.`.
    CurDir,
    /// The parent directory, `..`.
    ParentDir,
    /// An ordinary name.
    Normal(Vec<u8>),
}

/// What a component is, with its bytes as a sequence.
pub enum Part {
    Prefix(Seq<u8>),
    RootDir,
    CurDir,
    ParentDir,
    Normal(Seq<u8>),
}

impl View for PathPart {
    type V = Part;

    open spec fn view(&self) -> Part {
        match self {
            PathPart::Prefix(bytes) => Part::Prefix(bytes@),
            PathPart::RootDir => Part::RootDir,
            PathPart::CurDir => Part::CurDir,
            PathPart::ParentDir => Part::ParentDir,
            PathPart::Normal(bytes) => Part::Normal(bytes@),
        }
    }
}

impl Part {
    /// Whether the component anchors a path: a prefix or the root directory.
    pub open spec fn is_anchor(self) -> bool {
        self is Prefix || self is RootDir
    }

    /// The bytes of the component by itself.
    pub open spec fn bytes(self) -> Seq<u8> {
        match self {
            Part::Prefix(bytes) => bytes,
            Part::RootDir => seq![SEPARATOR],
            Part::CurDir => seq![46u8],
            Part::ParentDir => seq![46u8, 46u8],
            Part::Normal(bytes) => bytes,
        }
    }
}

/// A path: its components from the outermost to the innermost.
#[derive(Debug, PartialEq, Eq, Hash)]
pub struct FsPath {
    pub parts: Arc<Vec<PathPart>>,
}

impl View for FsPath {
    type V = Seq<Part>;

    open spec fn view(&self) -> Seq<Part> {
        self.parts@.map_values(|part: PathPart| part@)
    }
}

/// Whether `prefix` is an initial segment of `path`.
pub open spec fn starts_with(path: Seq<Part>, prefix: Seq<Part>) -> bool {
    prefix.len() <= path.len() && path.take(prefix.len() as int) == prefix
}

/// `path` relative to `root` where it lies below it, `path` itself where it does not.
pub open spec fn relative_to(path: Seq<Part>, root: Seq<Part>) -> Seq<Part> {
    if starts_with(path, root) {
        path.skip(root.len() as int)
    } else {
        path
    }
}

/// `path` with `absolute` in place of `given` where it lies below it, `path` itself where it
/// does not.
pub open spec fn resolved(path: Seq<Part>, given: Seq<Part>, absolute: Seq<Part>) -> Seq<Part> {
    if starts_with(path, given) {
        absolute + path.skip(given.len() as int)
    } else {
        path
    }
}

/// The length of the shortest ancestor of `path`: what remains when every component behind
/// the last anchor is dropped.
pub open spec fn anchor_len(path: Seq<Part>) -> nat
    decreases path.len(),
{
    if path.len() == 0 || path.last().is_anchor() {
        path.len()
    } else {
        anchor_len(path.drop_last())
    }
}

/// The proper ancestors of `path`, the outermost first.
pub open spec fn ancestors_above(path: Seq<Part>) -> Seq<Seq<Part>> {
    Seq::new(
        (path.len() - anchor_len(path)) as nat,
        |i: int| path.take(anchor_len(path) as int + i),
    )
}

/// The bytes of a path: its components, with a separator between two of which the first is
/// not an anchor.
pub open spec fn rendered(path: Seq<Part>) -> Seq<u8>
    decreases path.len(),
{
    if path.len() == 0 {
        seq![]
    } else {
        let front = path.drop_last();
        if front.len() == 0 || front.last().is_anchor() {
            rendered(front) + path.last().bytes()
        } else {
            rendered(front) + seq![SEPARATOR] + path.last().bytes()
        }
    }
}

/// A copy of `bytes`.
pub(crate) fn copy_bytes(bytes: &Vec<u8>) -> (result: Vec<u8>)
    ensures
        result@ == bytes@,
{
    let result = bytes.clone();
    assert(result@ =~= bytes@);
    result
}

/// Whether two byte strings are the same.
pub(crate) fn same_bytes(left: &Vec<u8>, right: &Vec<u8>) -> (result: bool)
    ensures
        result == (left@ == right@),
{
    if left.len() != right.len() {
        return false;
    }
    let mut i: usize = 0;
    while i < left.len()
        invariant
            i <= left.len(),
            left.len() == right.len(),
            forall|j: int| 0 <= j < i ==> left@[j] == right@[j],
        decreases left.len() - i,
    {
        if left[i] != right[i] {
            return false;
        }
        i = i + 1;
    }
    assert(left@ =~= right@);
    true
}

impl PathPart {
    fn copy(&self) -> (result: PathPart)
        ensures
            result@ == self@,
    {
        match self {
            PathPart::Prefix(bytes) => PathPart::Prefix(copy_bytes(bytes)),
            PathPart::RootDir => PathPart::RootDir,
            PathPart::CurDir => PathPart::CurDir,
            PathPart::ParentDir => PathPart::ParentDir,
            PathPart::Normal(bytes) => PathPart::Normal(copy_bytes(bytes)),
        }
    }

    fn same(&self, other: &PathPart) -> (result: bool)
        ensures
            result == (self@ == other@),
    {
        match (self, other) {
            (PathPart::Prefix(left), PathPart::Prefix(right)) => same_bytes(left, right),
            (PathPart::RootDir, PathPart::RootDir) => true,
            (PathPart::CurDir, PathPart::CurDir) => true,
            (PathPart::ParentDir, PathPart::ParentDir) => true,
            (PathPart::Normal(left), PathPart::Normal(right)) => same_bytes(left, right),
            _ => false,
        }
    }

    fn is_anchor(&self) -> (result: bool)
        ensures
            result == self@.is_anchor(),
    {
        match self {
            PathPart::Prefix(_) => true,
            PathPart::RootDir => true,
            _ => false,
        }
    }

    fn append_to(&self, out: &mut Vec<u8>)
        ensures
            final(out)@ == old(out)@ + self@.bytes(),
    {
        match self {
            PathPart::Prefix(bytes) => {
                append_bytes(out, bytes);
            },
            PathPart::RootDir => {
                out.push(SEPARATOR);
            },
            PathPart::CurDir => {
                out.push(46);
            },
            PathPart::ParentDir => {
                out.push(46);
                out.push(46);
            },
            PathPart::Normal(bytes) => {
                append_bytes(out, bytes);
            },
        }
        assert(out@ =~= old(out)@ + self@.bytes());
    }
}

fn append_bytes(out: &mut Vec<u8>, bytes: &Vec<u8>)
    ensures
        final(out)@ == old(out)@ + bytes@,
{
    let mut copy: Vec<u8> = copy_bytes(bytes);
    out.append(&mut copy);
}

impl Clone for FsPath {
    /// The same path, sharing its components.
    fn clone(&self) -> (result: FsPath)
        ensures
            result == *self,
    {
        FsPath { parts: share(&self.parts) }
    }
}

impl FsPath {
    /// The path with the given components.
    pub fn from_parts(parts: Vec<PathPart>) -> (result: FsPath)
        ensures
            result@ == parts@.map_values(|part: PathPart| part@),
    {
        FsPath { parts: Arc::new(parts) }
    }

    /// Whether both paths have the same components.
    pub fn same(&self, other: &FsPath) -> (result: bool)
        ensures
            result == (self@ == other@),
    {
        if self.parts.len() != other.parts.len() {
            return false;
        }
        let result = other.is_prefix_of(self);
        assert(self@.take(other@.len() as int) =~= self@);
        result
    }

    /// Whether the components of `self` are the first components of `path`.
    pub fn is_prefix_of(&self, path: &FsPath) -> (result: bool)
        ensures
            result == starts_with(path@, self@),
    {
        if self.parts.len() > path.parts.len() {
            return false;
        }
        let mut i: usize = 0;
        while i < self.parts.len()
            invariant
                i <= self.parts.len() <= path.parts.len(),
                forall|j: int| 0 <= j < i ==> self@[j] == path@[j],
            decreases self.parts.len() - i,
        {
            if !self.parts[i].same(&path.parts[i]) {
                assert(path@.take(self@.len() as int)[i as int] != self@[i as int]);
                return false;
            }
            i = i + 1;
        }
        assert(path@.take(self@.len() as int) =~= self@);
        true
    }

    /// The components from `from` up to but not including `to`, as a path.
    fn segment(&self, from: usize, to: usize) -> (result: FsPath)
        requires
            from <= to <= self.parts@.len(),
        ensures
            result@ == self@.subrange(from as int, to as int),
    {
        let mut parts: Vec<PathPart> = Vec::new();
        let mut i: usize = from;
        while i < to
            invariant
                from <= i <= to <= self.parts@.len(),
                parts@.len() == i - from,
                forall|j: int| 0 <= j < parts@.len() ==> #[trigger] parts@[j]@ == self@[from + j],
            decreases to - i,
        {
            parts.push(self.parts[i].copy());
            i = i + 1;
        }
        let result = FsPath::from_parts(parts);
        assert(result@ =~= self@.subrange(from as int, to as int));
        result
    }

    /// The path relative to `root` where it lies below it, the path itself where it does
    /// not.
    pub fn relative_to(&self, root: &FsPath) -> (result: FsPath)
        ensures
            result@ == relative_to(self@, root@),
    {
        if root.is_prefix_of(self) {
            let result = self.segment(root.parts.len(), self.parts.len());
            assert(self@.subrange(root@.len() as int, self@.len() as int) =~= self@.skip(
                root@.len() as int,
            ));
            result
        } else {
            self.clone()
        }
    }

    /// The path with `absolute` in place of `given` where it lies below it, the path itself
    /// where it does not.
    pub fn resolved(&self, given: &FsPath, absolute: &FsPath) -> (result: FsPath)
        ensures
            result@ == resolved(self@, given@, absolute@),
    {
        if !given.is_prefix_of(self) {
            return self.clone();
        }
        let mut parts: Vec<PathPart> = Vec::new();
        let mut i: usize = 0;
        while i < absolute.parts.len()
            invariant
                i <= absolute.parts@.len(),
                parts@.len() == i,
                forall|j: int| 0 <= j < parts@.len() ==> #[trigger] parts@[j]@ == absolute@[j],
            decreases absolute.parts@.len() - i,
        {
            parts.push(absolute.parts[i].copy());
            i = i + 1;
        }
        let mut i: usize = given.parts.len();
        while i < self.parts.len()
            invariant
                given.parts@.len() <= i <= self.parts@.len(),
                parts@.len() == absolute@.len() + i - given@.len(),
                forall|j: int|
                    0 <= j < parts@.len() ==> #[trigger] parts@[j]@ == (absolute@ + self@.skip(
                        given@.len() as int,
                    ))[j],
            decreases self.parts@.len() - i,
        {
            parts.push(self.parts[i].copy());
            i = i + 1;
        }
        let result = FsPath::from_parts(parts);
        assert(result@ =~= absolute@ + self@.skip(given@.len() as int));
        result
    }

    /// The proper ancestors of the path, the outermost first.
    pub fn ancestors_above(&self) -> (result: Vec<FsPath>)
        ensures
            result@.map_values(|dir: FsPath| dir@) == ancestors_above(self@),
    {
        let mut start: usize = self.parts.len();
        assert(self@.take(self@.len() as int) =~= self@);
        while start > 0 && !self.parts[start - 1].is_anchor()
            invariant
                start <= self.parts@.len(),
                anchor_len(self@.take(start as int)) == anchor_len(self@),
            decreases start,
        {
            assert(self@.take(start as int).drop_last() =~= self@.take(start - 1));
            assert(self@.take(start as int).last() == self.parts@[start - 1]@);
            start = start - 1;
        }
        assert(start > 0 ==> self@.take(start as int).last() == self.parts@[start - 1]@);
        assert(anchor_len(self@) == start);
        let mut result: Vec<FsPath> = Vec::new();
        let mut len: usize = start;
        while len < self.parts.len()
            invariant
                start <= len <= self.parts@.len(),
                anchor_len(self@) == start,
                result@.len() == len - start,
                forall|j: int|
                    0 <= j < result@.len() ==> #[trigger] result@[j]@ == self@.take(start + j),
            decreases self.parts@.len() - len,
        {
            result.push(self.segment(0, len));
            assert(self@.subrange(0, len as int) =~= self@.take(len as int));
            len = len + 1;
        }
        assert(result@.map_values(|dir: FsPath| dir@) =~= ancestors_above(self@));
        result
    }

    /// The bytes of the path.
    pub fn render(&self) -> (result: Vec<u8>)
        ensures
            result@ == rendered(self@),
    {
        let mut out: Vec<u8> = Vec::new();
        let mut i: usize = 0;
        assert(rendered(self@.take(0)) =~= seq![]);
        while i < self.parts.len()
            invariant
                i <= self.parts@.len(),
                out@ == rendered(self@.take(i as int)),
            decreases self.parts@.len() - i,
        {
            let ghost front = self@.take(i as int);
            assert(self@.take(i + 1).drop_last() =~= front);
            assert(self@.take(i + 1).last() == self.parts@[i as int]@);
            assert(i > 0 ==> front.last() == self.parts@[i - 1]@);
            if i > 0 && !self.parts[i - 1].is_anchor() {
                out.push(SEPARATOR);
                assert(out@ =~= rendered(front) + seq![SEPARATOR]);
            }
            self.parts[i].append_to(&mut out);
            i = i + 1;
        }
        assert(self@.take(self@.len() as int) =~= self@);
        out
    }
}

} // verus!
