//! The directories that a traversal has entered.

use crate::entry::FileIdInfo;
use crate::path::{FsPath, Part};
use std::collections::HashSet;
use vstd::prelude::*;

verus! {

broadcast use vstd::std_specs::hash::group_hash_axioms;

/// Key for the visited-set used by cycle detection.
///
/// Prefers the identity that the operating system gives the file, which is immune to path
/// aliasing. Falls back to the canonical, then to the raw path when it has none.
#[derive(Hash, Eq, PartialEq, Clone, Debug)]
pub enum VisitedKey {
    /// Volume serial number and file ID (or device and inode).
    FileId { volume: u64, file_id: u64 },
    /// Fallback: canonical or raw path.
    Path(FsPath),
}

/// A key with its path as a sequence.
pub enum Key {
    FileId { volume: u64, file_id: u64 },
    Path(Seq<Part>),
}

impl View for VisitedKey {
    type V = Key;

    open spec fn view(&self) -> Key {
        match self {
            VisitedKey::FileId { volume, file_id } => Key::FileId {
                volume: *volume,
                file_id: *file_id,
            },
            VisitedKey::Path(path) => Key::Path(path@),
        }
    }
}

/// The key of a directory: its identity where it has one, else its canonical path, else its
/// path.
pub open spec fn visited_key(
    path: FsPath,
    identity: Option<FileIdInfo>,
    canonical: Option<FsPath>,
) -> Key {
    match (identity, canonical) {
        (Some(info), _) => Key::FileId { volume: info.volume_serial, file_id: info.file_id },
        (None, Some(canonical)) => Key::Path(canonical@),
        (None, None) => Key::Path(path@),
    }
}

/// Build a visited-set key for cycle detection.
///
/// `identity` is the identity of what `path` leads to, links followed; `canonical` is the
/// canonical form of `path`. Either is absent where the platform could not tell.
pub fn make_visited_key(
    path: &FsPath,
    identity: Option<FileIdInfo>,
    canonical: Option<FsPath>,
) -> (result: VisitedKey)
    ensures
        match (identity, canonical) {
            (Some(info), _) => result == (VisitedKey::FileId {
                volume: info.volume_serial,
                file_id: info.file_id,
            }),
            (None, Some(canonical)) => result == VisitedKey::Path(canonical),
            (None, None) => result == VisitedKey::Path(*path),
        },
        result@ == visited_key(*path, identity, canonical),
{
    match identity {
        Some(info) => VisitedKey::FileId { volume: info.volume_serial, file_id: info.file_id },
        None => match canonical {
            Some(canonical) => VisitedKey::Path(canonical),
            None => VisitedKey::Path(path.clone()),
        },
    }
}

/// A volume and a file ID as one number.
spec fn packed(volume: u64, file_id: u64) -> u128 {
    (volume as u128 * 0x1_0000_0000_0000_0000u128 + file_id as u128) as u128
}

fn pack(volume: u64, file_id: u64) -> (result: u128)
    ensures
        result == packed(volume, file_id),
{
    volume as u128 * 0x1_0000_0000_0000_0000u128 + file_id as u128
}

proof fn lemma_packed_injective(v1: u64, f1: u64, v2: u64, f2: u64)
    requires
        packed(v1, f1) == packed(v2, f2),
    ensures
        v1 == v2,
        f1 == f2,
{
}

/// The set of keys of the directories that were entered.
#[derive(Debug)]
pub struct VisitedSet {
    ids: HashSet<u128>,
    paths: Vec<FsPath>,
}

impl View for VisitedSet {
    type V = Set<Key>;

    closed spec fn view(&self) -> Set<Key> {
        Set::new(
            |key: Key|
                match key {
                    Key::FileId { volume, file_id } => self.ids@.contains(packed(volume, file_id)),
                    Key::Path(path) => exists|i: int|
                        0 <= i < self.paths@.len() && #[trigger] self.paths@[i]@ == path,
                },
        )
    }
}

impl VisitedSet {
    /// No directory entered yet.
    pub fn new() -> (result: VisitedSet)
        ensures
            result@ == Set::<Key>::empty(),
    {
        let result = VisitedSet { ids: HashSet::new(), paths: Vec::new() };
        assert(result@ =~= Set::<Key>::empty());
        result
    }

    fn contains_path(&self, path: &FsPath) -> (result: bool)
        ensures
            result == self@.contains(Key::Path(path@)),
    {
        let mut i: usize = 0;
        while i < self.paths.len()
            invariant
                i <= self.paths@.len(),
                forall|j: int| 0 <= j < i ==> #[trigger] self.paths@[j]@ != path@,
            decreases self.paths@.len() - i,
        {
            if self.paths[i].same(path) {
                return true;
            }
            i = i + 1;
        }
        false
    }

    /// Whether the directory with this key was entered.
    pub fn contains(&self, key: &VisitedKey) -> (result: bool)
        ensures
            result == self@.contains(key@),
    {
        match key {
            VisitedKey::FileId { volume, file_id } => self.ids.contains(&pack(*volume, *file_id)),
            VisitedKey::Path(path) => self.contains_path(path),
        }
    }

    /// Adds a key; `true` if it was not there before.
    pub fn insert(&mut self, key: VisitedKey) -> (result: bool)
        ensures
            result == !old(self)@.contains(key@),
            final(self)@ == old(self)@.insert(key@),
    {
        let ghost before = *self;
        match key {
            VisitedKey::FileId { volume, file_id } => {
                let result = self.ids.insert(pack(volume, file_id));
                proof {
                    assert forall|k: Key| self@.contains(k) == before@.insert(key@).contains(k) by {
                        if let Key::FileId { volume: v, file_id: f } = k {
                            if packed(v, f) == packed(volume, file_id) {
                                lemma_packed_injective(v, f, volume, file_id);
                            }
                        }
                    }
                }
                assert(self@ =~= before@.insert(key@));
                result
            },
            VisitedKey::Path(path) => {
                if self.contains_path(&path) {
                    assert(self@ =~= before@.insert(key@));
                    false
                } else {
                    self.paths.push(path);
                    proof {
                        assert forall|k: Key| self@.contains(k) == before@.insert(key@).contains(
                            k,
                        ) by {
                            if let Key::Path(p) = k {
                                if before@.contains(k) {
                                    let i = choose|i: int|
                                        0 <= i < before.paths@.len()
                                            && #[trigger] before.paths@[i]@ == p;
                                    assert(self.paths@[i]@ == p);
                                }
                                assert(self.paths@[before.paths@.len() as int]@ == path@);
                            }
                        }
                    }
                    assert(self@ =~= before@.insert(key@));
                    true
                }
            },
        }
    }
}

/// Check-and-insert into the visited set. Returns `true` if the key was **already** present
/// (a cycle).
pub fn check_visited(visited: &mut VisitedSet, key: VisitedKey) -> (result: bool)
    ensures
        result == old(visited)@.contains(key@),
        final(visited)@ == old(visited)@.insert(key@),
{
    !visited.insert(key)
}

} // verus!
