//! What a traversal asks of its driver, and what the driver answers.

use crate::entry::{Entry, EntryView, FileIdInfo, StreamInfo};
use crate::error::TreeError;
use crate::ignoring::IgnoreFiles;
use crate::listing::ReadDirResult;
use crate::path::FsPath;
use crate::visited::VisitedKey;
use vstd::prelude::*;

verus! {

/// Something that only the file system, or the output, can do.
#[derive(Debug)]
pub enum Request<'a> {
    /// Describe the entry at `path`; answered by `Reply::Entry`.
    Stat { path: &'a FsPath, depth: usize },
    /// Describe a directory entry at `path`; answered by `Reply::Entry`.
    Describe { path: &'a FsPath, depth: usize },
    /// The identity of `path`, links not followed; answered by `Reply::Volume`.
    Volume { path: &'a FsPath },
    /// The visited-set key of `path`, links followed; answered by `Reply::Identity`.
    Identity { path: &'a FsPath },
    /// Note that the directory `path` is entered, links followed; answered by `Reply::Seen`:
    /// whether it was noted before.
    Claim { path: &'a FsPath },
    /// Whether it was noted that the directory `path` is entered, links followed; answered by
    /// `Reply::Seen`.
    Seen { path: &'a FsPath },
    /// Wait for a permit to read a directory, and take it; answered by `Reply::Done`.
    TakePermit,
    /// Give a permit back; answered by `Reply::Done`.
    ReturnPermit,
    /// The entries of the directory `path`; answered by `Reply::Listing`.
    List { path: &'a FsPath },
    /// The ignore files of the directory `path`; answered by `Reply::Rules`.
    Rules { path: &'a FsPath },
    /// The alternate data streams of `path`; answered by `Reply::Streams`.
    Streams { path: &'a FsPath },
    /// Whether `path` leads to a directory; answered by `Reply::IsDir`.
    IsDir { path: &'a FsPath },
    /// Write an entry; answered by `Reply::Written`.
    Write { entry: &'a Entry },
}

/// A request, by value.
pub enum Ask {
    Stat { path: FsPath, depth: usize },
    Describe { path: FsPath, depth: usize },
    Volume { path: FsPath },
    Identity { path: FsPath },
    Claim { path: FsPath },
    Seen { path: FsPath },
    TakePermit,
    ReturnPermit,
    List { path: FsPath },
    Rules { path: FsPath },
    Streams { path: FsPath },
    IsDir { path: FsPath },
    Write { entry: EntryView },
}

impl<'a> View for Request<'a> {
    type V = Ask;

    open spec fn view(&self) -> Ask {
        match self {
            Request::Stat { path, depth } => Ask::Stat { path: **path, depth: *depth },
            Request::Describe { path, depth } => Ask::Describe { path: **path, depth: *depth },
            Request::Volume { path } => Ask::Volume { path: **path },
            Request::Identity { path } => Ask::Identity { path: **path },
            Request::Claim { path } => Ask::Claim { path: **path },
            Request::Seen { path } => Ask::Seen { path: **path },
            Request::TakePermit => Ask::TakePermit,
            Request::ReturnPermit => Ask::ReturnPermit,
            Request::List { path } => Ask::List { path: **path },
            Request::Rules { path } => Ask::Rules { path: **path },
            Request::Streams { path } => Ask::Streams { path: **path },
            Request::IsDir { path } => Ask::IsDir { path: **path },
            Request::Write { entry } => Ask::Write { entry: entry@ },
        }
    }
}

/// An optional request, by value.
pub open spec fn asked(request: Option<Request<'_>>) -> Option<Ask> {
    match request {
        Some(request) => Some(request@),
        None => None,
    }
}

/// The answer to a request.
#[derive(Debug)]
pub enum Reply {
    Entry(Result<Entry, TreeError>),
    Volume(Option<FileIdInfo>),
    Identity(VisitedKey),
    Seen(bool),
    Done,
    Listing(ReadDirResult),
    Rules(IgnoreFiles),
    Streams(Vec<StreamInfo>),
    IsDir(bool),
    Written(Result<(), TreeError>),
}

/// A file system, and an output, that give each request a fixed answer. Where several
/// workers note the directories that they enter, `claim` and `seen` are what they were told
/// in one run.
pub struct World {
    pub stat: spec_fn(FsPath, usize) -> Result<Entry, TreeError>,
    pub describe: spec_fn(FsPath, usize) -> Result<Entry, TreeError>,
    pub volume: spec_fn(FsPath) -> Option<FileIdInfo>,
    pub identity: spec_fn(FsPath) -> VisitedKey,
    pub claim: spec_fn(FsPath) -> bool,
    pub seen: spec_fn(FsPath) -> bool,
    pub list: spec_fn(FsPath) -> ReadDirResult,
    pub rules: spec_fn(FsPath) -> IgnoreFiles,
    pub streams: spec_fn(FsPath) -> Vec<StreamInfo>,
    pub is_dir: spec_fn(FsPath) -> bool,
    pub write: spec_fn(EntryView) -> Result<(), TreeError>,
}

impl World {
    /// The answer to a request.
    pub open spec fn answer(self, ask: Ask) -> Reply {
        match ask {
            Ask::Stat { path, depth } => Reply::Entry((self.stat)(path, depth)),
            Ask::Describe { path, depth } => Reply::Entry((self.describe)(path, depth)),
            Ask::Volume { path } => Reply::Volume((self.volume)(path)),
            Ask::Identity { path } => Reply::Identity((self.identity)(path)),
            Ask::Claim { path } => Reply::Seen((self.claim)(path)),
            Ask::Seen { path } => Reply::Seen((self.seen)(path)),
            Ask::TakePermit => Reply::Done,
            Ask::ReturnPermit => Reply::Done,
            Ask::List { path } => Reply::Listing((self.list)(path)),
            Ask::Rules { path } => Reply::Rules((self.rules)(path)),
            Ask::Streams { path } => Reply::Streams((self.streams)(path)),
            Ask::IsDir { path } => Reply::IsDir((self.is_dir)(path)),
            Ask::Write { entry } => Reply::Written((self.write)(entry)),
        }
    }
}

} // verus!
