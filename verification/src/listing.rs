//! Reading a directory: the entry limit and the order of the entries.

use crate::error::IoFault;
use crate::path::FsPath;
use vstd::prelude::*;

verus! {

/// What a directory entry is, links not followed.
#[derive(Clone, Copy, Debug, PartialEq, Eq)]
pub enum FileKind {
    Dir,
    Symlink,
    /// A regular file or anything else.
    File,
}

/// A directory entry with what the name filters and the sorter say about it.
#[derive(Clone, Debug, PartialEq, Eq)]
pub struct DirItem {
    pub path: FsPath,
    pub name: Vec<u8>,
    /// Absent where the platform could not tell.
    pub kind: Option<FileKind>,
    /// Whether the entry is a link that leads to a directory.
    pub link_to_dir: bool,
    /// Where the sorter puts the entry: the lowest rank comes first, and entries of the same
    /// rank stay in the order in which they were read.
    pub rank: u64,
    /// Whether the name is a reserved device name.
    pub reserved: bool,
    /// Whether the name matches an exclude pattern.
    pub excluded: bool,
    /// Whether the name matches the include pattern for files.
    pub included: bool,
    /// Whether the name matches the include pattern for directories.
    pub dir_included: bool,
}

/// The entries that could be read, in the order in which they were read.
pub open spec fn readable<T, E>(entries: Seq<Result<T, E>>) -> Seq<T>
    decreases entries.len(),
{
    if entries.len() == 0 {
        Seq::empty()
    } else {
        match entries.last() {
            Ok(entry) => readable(entries.drop_last()).push(entry),
            Err(_) => readable(entries.drop_last()),
        }
    }
}

/// Whether a directory with `count` entries is within the limit.
pub open spec fn within_limit(count: nat, limit: Option<usize>) -> bool {
    match limit {
        Some(limit) => count <= limit,
        None => true,
    }
}

/// Collects directory entries up to a limit: entries beyond it are counted, not stored.
pub struct EntryCollector<T> {
    limit: Option<usize>,
    kept: Vec<T>,
    beyond: usize,
    offered: Ghost<Seq<T>>,
}

impl<T> View for EntryCollector<T> {
    type V = Seq<T>;

    /// The readable entries offered so far.
    closed spec fn view(&self) -> Seq<T> {
        self.offered@
    }
}

impl<T> EntryCollector<T> {
    /// What is stored are the first entries offered: all of them, or one more than the
    /// limit.
    pub closed spec fn wf(&self) -> bool {
        &&& self.kept@.len() + self.beyond == self.offered@.len()
        &&& self.kept@ == self.offered@.take(self.kept@.len() as int)
        &&& self.beyond > 0 ==> {
            &&& self.limit is Some
            &&& self.kept@.len() == self.limit->Some_0 + 1
        }
        &&& self.limit is Some ==> self.kept@.len() <= self.limit->Some_0 + 1
    }

    /// The limit on the number of entries.
    pub closed spec fn limit(&self) -> Option<usize> {
        self.limit
    }

    /// The number of entries held in memory.
    pub closed spec fn stored(&self) -> nat {
        self.kept@.len()
    }

    /// Nothing collected yet.
    pub fn new(limit: Option<usize>) -> (result: EntryCollector<T>)
        ensures
            result.wf(),
            result.limit() == limit,
            result@ == Seq::<T>::empty(),
    {
        let result = EntryCollector {
            limit,
            kept: Vec::new(),
            beyond: 0,
            offered: Ghost(Seq::empty()),
        };
        assert(result.kept@ =~= result.offered@.take(0));
        result
    }

    /// The number of readable entries offered so far.
    pub fn count(&self) -> (result: usize)
        requires
            self.wf(),
            self@.len() <= usize::MAX,
        ensures
            result == self@.len(),
    {
        self.kept.len() + self.beyond
    }

    /// Takes the next entry of the directory; one that could not be read is skipped.
    pub fn offer<E>(&mut self, entry: Result<T, E>)
        requires
            old(self).wf(),
            old(self)@.len() < usize::MAX,
        ensures
            final(self).wf(),
            final(self).limit() == old(self).limit(),
            match entry {
                Ok(entry) => final(self)@ == old(self)@.push(entry),
                Err(_) => final(self)@ == old(self)@,
            },
            final(self).limit() is Some ==> final(self).stored() <= final(self).limit()->Some_0 + 1,
    {
        match entry {
            Ok(entry) => {
                let full = match self.limit {
                    Some(limit) => self.kept.len() > limit,
                    None => false,
                };
                let ghost offered = self.offered@.push(entry);
                if full {
                    self.beyond = self.beyond + 1;
                    assert(offered.take(self.kept@.len() as int) =~= self.kept@);
                } else {
                    assert(self.offered@.take(self.kept@.len() as int) =~= self.offered@);
                    self.kept.push(entry);
                    assert(offered.take(self.kept@.len() as int) =~= self.kept@);
                }
                self.offered = Ghost(offered);
            },
            Err(_) => {},
        }
    }

    /// All entries if they are within the limit, their number if they are not.
    pub fn finish(self) -> (result: Result<Vec<T>, usize>)
        requires
            self.wf(),
            self@.len() <= usize::MAX,
        ensures
            within_limit(self@.len(), self.limit()) ==> result is Ok && result->Ok_0@ == self@,
            !within_limit(self@.len(), self.limit()) ==> result == Err::<Vec<T>, usize>(
                self@.len() as usize,
            ),
    {
        match self.limit {
            Some(limit) => {
                if self.kept.len() > limit {
                    return Err(self.kept.len() + self.beyond);
                }
            },
            None => {},
        }
        assert(self.offered@.take(self.kept@.len() as int) =~= self.offered@);
        Ok(self.kept)
    }
}

/// Collect directory entries with optional `--filelimit` early exit.
///
/// The entries that could be read if there are no more than the limit allows, otherwise
/// their number.
pub fn collect_with_filelimit<T, E>(
    read_dir: Vec<Result<T, E>>,
    file_limit: Option<usize>,
) -> (result: Result<Vec<T>, usize>)
    ensures
        within_limit(readable(read_dir@).len(), file_limit) ==> result is Ok && result->Ok_0@
            == readable(read_dir@),
        !within_limit(readable(read_dir@).len(), file_limit) ==> result == Err::<Vec<T>, usize>(
            readable(read_dir@).len() as usize,
        ),
{
    let total: usize = read_dir.len();
    let mut collector: EntryCollector<T> = EntryCollector::new(file_limit);
    let mut rest: Vec<Result<T, E>> = reversed(read_dir);
    let ghost entries = read_dir@;
    let ghost mut taken: int = 0;
    assert(entries.take(0) =~= Seq::empty());
    while rest.len() > 0
        invariant
            0 <= taken <= entries.len() == total,
            rest@ == entries.skip(taken).reverse(),
            collector.wf(),
            collector.limit() == file_limit,
            collector@ == readable(entries.take(taken)),
            collector@.len() <= taken,
        decreases rest@.len(),
    {
        let ghost before = rest@;
        let entry = rest.pop();
        match entry {
            Some(entry) => {
                proof {
                    assert(before.last() == entries[taken]);
                    assert(entries.take(taken + 1).drop_last() =~= entries.take(taken));
                    assert(rest@ =~= entries.skip(taken + 1).reverse());
                }
                collector.offer(entry);
                proof {
                    taken = taken + 1;
                }
            },
            None => {},
        }
    }
    assert(entries.take(taken) =~= entries);
    collector.finish()
}

/// The elements in the opposite order.
pub(crate) fn reversed<T>(items: Vec<T>) -> (result: Vec<T>)
    ensures
        result@ == items@.reverse(),
{
    let ghost all = items@;
    let mut items = items;
    let mut result: Vec<T> = Vec::new();
    while items.len() > 0
        invariant
            items@ == all.take(items@.len() as int),
            items@.len() <= all.len(),
            result@ == all.skip(items@.len() as int).reverse(),
        decreases items@.len(),
    {
        let ghost len = items@.len() as int;
        let item = items.pop();
        match item {
            Some(item) => {
                result.push(item);
                proof {
                    assert(items@ =~= all.take(len - 1));
                    assert(result@ =~= all.skip(len - 1).reverse());
                }
            },
            None => {},
        }
    }
    assert(all.skip(0) =~= all);
    result
}

/// Whether the ranks never fall.
pub open spec fn in_rank_order(items: Seq<DirItem>) -> bool {
    forall|i: int, j: int| 0 <= i <= j < items.len() ==> items[i].rank <= items[j].rank
}

/// The items of one rank, in their order.
pub open spec fn of_rank(items: Seq<DirItem>, rank: u64) -> Seq<DirItem>
    decreases items.len(),
{
    if items.len() == 0 {
        Seq::empty()
    } else if items.last().rank == rank {
        of_rank(items.drop_last(), rank).push(items.last())
    } else {
        of_rank(items.drop_last(), rank)
    }
}

/// `sorted` holds the items of `items` in the order of their ranks, those of one rank in the
/// order in which they come there.
pub open spec fn is_listing_of(sorted: Seq<DirItem>, items: Seq<DirItem>) -> bool {
    &&& in_rank_order(sorted)
    &&& forall|rank: u64| #[trigger] of_rank(sorted, rank) == of_rank(items, rank)
}

proof fn lemma_of_rank_concat(front: Seq<DirItem>, back: Seq<DirItem>, rank: u64)
    ensures
        of_rank(front + back, rank) == of_rank(front, rank) + of_rank(back, rank),
    decreases back.len(),
{
    if back.len() == 0 {
        assert(front + back =~= front);
        assert(of_rank(front, rank) + of_rank(back, rank) =~= of_rank(front, rank));
    } else {
        lemma_of_rank_concat(front, back.drop_last(), rank);
        assert((front + back).drop_last() =~= front + back.drop_last());
        assert((front + back).last() == back.last());
        assert(of_rank(front + back, rank) =~= of_rank(front, rank) + of_rank(back, rank));
    }
}

/// Nothing has a rank above all ranks.
pub proof fn lemma_of_rank_above(items: Seq<DirItem>, rank: u64)
    requires
        forall|i: int| 0 <= i < items.len() ==> (#[trigger] items[i]).rank < rank,
    ensures
        of_rank(items, rank) == Seq::<DirItem>::empty(),
    decreases items.len(),
{
    if items.len() > 0 {
        lemma_of_rank_above(items.drop_last(), rank);
    }
}

proof fn lemma_of_rank_single(item: DirItem, rank: u64)
    ensures
        of_rank(seq![item], rank) == (if item.rank == rank {
            seq![item]
        } else {
            Seq::empty()
        }),
{
    assert(seq![item].drop_last() =~= Seq::empty());
    assert(of_rank(seq![item].drop_last(), rank) =~= Seq::empty());
    assert(of_rank(seq![item], rank) =~= (if item.rank == rank {
        seq![item]
    } else {
        Seq::empty()
    }));
}

/// Taking the last of two lists to the front of what was taken before keeps the items of
/// each rank in order.
proof fn lemma_merge_step(
    left: Seq<DirItem>,
    right: Seq<DirItem>,
    tail: Seq<DirItem>,
    from_left: bool,
    rank: u64,
)
    requires
        in_rank_order(left),
        in_rank_order(right),
        from_left ==> left.len() > 0 && (right.len() > 0 ==> right.last().rank < left.last().rank),
        !from_left ==> right.len() > 0,
    ensures
        from_left ==> of_rank(left.drop_last(), rank) + of_rank(right, rank) + of_rank(
            seq![left.last()] + tail,
            rank,
        ) == of_rank(left, rank) + of_rank(right, rank) + of_rank(tail, rank),
        !from_left ==> of_rank(left, rank) + of_rank(right.drop_last(), rank) + of_rank(
            seq![right.last()] + tail,
            rank,
        ) == of_rank(left, rank) + of_rank(right, rank) + of_rank(tail, rank),
{
    if from_left {
        let item = left.last();
        lemma_of_rank_concat(seq![item], tail, rank);
        lemma_of_rank_single(item, rank);
        if rank == item.rank {
            lemma_of_rank_above(right, rank);
        }
        assert(of_rank(left.drop_last(), rank) + of_rank(right, rank) + of_rank(
            seq![item] + tail,
            rank,
        ) =~= of_rank(left, rank) + of_rank(right, rank) + of_rank(tail, rank));
    } else {
        let item = right.last();
        lemma_of_rank_concat(seq![item], tail, rank);
        lemma_of_rank_single(item, rank);
        assert(of_rank(left, rank) + of_rank(right.drop_last(), rank) + of_rank(
            seq![item] + tail,
            rank,
        ) =~= of_rank(left, rank) + of_rank(right, rank) + of_rank(tail, rank));
    }
}

/// Merges two lists in rank order into one, items of `left` before items of `right` that
/// have the same rank.
fn merge(left: Vec<DirItem>, right: Vec<DirItem>) -> (result: Vec<DirItem>)
    requires
        in_rank_order(left@),
        in_rank_order(right@),
    ensures
        in_rank_order(result@),
        forall|rank: u64| #[trigger]
            of_rank(result@, rank) == of_rank(left@, rank) + of_rank(right@, rank),
{
    let ghost all_left = left@;
    let ghost all_right = right@;
    let mut left = left;
    let mut right = right;
    let mut out: Vec<DirItem> = Vec::new();
    proof {
        assert(out@.reverse() =~= Seq::empty());
        assert forall|rank: u64|
            of_rank(left@, rank) + of_rank(right@, rank) + #[trigger] of_rank(out@.reverse(), rank)
                == of_rank(all_left, rank) + of_rank(all_right, rank) by {
            assert(of_rank(left@, rank) + of_rank(right@, rank) + of_rank(out@.reverse(), rank)
                =~= of_rank(all_left, rank) + of_rank(all_right, rank));
        }
    }
    while left.len() > 0 || right.len() > 0
        invariant
            in_rank_order(left@),
            in_rank_order(right@),
            in_rank_order(out@.reverse()),
            forall|i: int, j: int|
                0 <= i < left@.len() && 0 <= j < out@.len() ==> (#[trigger] left@[i]).rank <= (
                #[trigger] out@[j]).rank,
            forall|i: int, j: int|
                0 <= i < right@.len() && 0 <= j < out@.len() ==> (#[trigger] right@[i]).rank <= (
                #[trigger] out@[j]).rank,
            forall|rank: u64|
                of_rank(left@, rank) + of_rank(right@, rank) + #[trigger] of_rank(
                    out@.reverse(),
                    rank,
                ) == of_rank(all_left, rank) + of_rank(all_right, rank),
        decreases left@.len() + right@.len(),
    {
        let from_left = right.len() == 0 || (left.len() > 0 && right[right.len() - 1].rank
            < left[left.len() - 1].rank);
        let ghost l = left@;
        let ghost r = right@;
        let ghost tail = out@.reverse();
        let taken = if from_left {
            left.pop()
        } else {
            right.pop()
        };
        match taken {
            Some(item) => {
                out.push(item);
                proof {
                    assert(out@.reverse() =~= seq![item] + tail);
                    assert forall|i: int, j: int|
                        0 <= i <= j < out@.len() implies out@.reverse()[i].rank
                        <= out@.reverse()[j].rank by {
                        if i == 0 && j > 0 {
                            assert(out@.reverse()[j] == out@[out@.len() - 1 - j]);
                            if from_left {
                                assert(l[l.len() - 1] == item);
                            } else {
                                assert(r[r.len() - 1] == item);
                            }
                        } else if i > 0 {
                            assert(out@.reverse()[i] == tail[i - 1]);
                            assert(out@.reverse()[j] == tail[j - 1]);
                        }
                    }
                    assert forall|rank: u64|
                        of_rank(left@, rank) + of_rank(right@, rank) + #[trigger] of_rank(
                            out@.reverse(),
                            rank,
                        ) == of_rank(all_left, rank) + of_rank(all_right, rank) by {
                        lemma_merge_step(l, r, tail, from_left, rank);
                        assert(of_rank(l, rank) + of_rank(r, rank) + of_rank(tail, rank) == of_rank(
                            all_left,
                            rank,
                        ) + of_rank(all_right, rank));
                    }
                }
            },
            None => {},
        }
    }
    let result = reversed(out);
    proof {
        assert forall|rank: u64| #[trigger]
            of_rank(result@, rank) == of_rank(all_left, rank) + of_rank(all_right, rank) by {
            assert(of_rank(left@, rank) + of_rank(right@, rank) + of_rank(out@.reverse(), rank)
                =~= of_rank(out@.reverse(), rank));
        }
    }
    result
}

/// Sorts entries by rank; entries of the same rank keep their order.
pub fn sort_items(items: Vec<DirItem>) -> (result: Vec<DirItem>)
    ensures
        is_listing_of(result@, items@),
    decreases items@.len(),
{
    let ghost all = items@;
    if items.len() <= 1 {
        return items;
    }
    let mut left = items;
    let mid: usize = left.len() / 2;
    let right = left.split_off(mid);
    let ghost front = left@;
    let ghost back = right@;
    let result = merge(sort_items(left), sort_items(right));
    proof {
        assert(all =~= front + back);
        assert forall|rank: u64| #[trigger] of_rank(result@, rank) == of_rank(all, rank) by {
            lemma_of_rank_concat(front, back, rank);
        }
    }
    result
}

/// Result of reading a directory's children.
#[derive(Debug, PartialEq, Eq)]
pub enum ReadDirResult {
    /// Successfully read, filtered for I/O errors, and sorted.
    Entries(Vec<DirItem>),
    /// The directory could not be read.
    ReadError(IoFault),
    /// `--filelimit` exceeded (carries total entry count).
    FilelimitExceeded(usize),
}

/// Whether `outcome` is what becomes of a directory for which opening it gave `opened`.
pub open spec fn is_outcome_of(
    outcome: ReadDirResult,
    opened: Result<Result<Vec<DirItem>, usize>, IoFault>,
) -> bool {
    match opened {
        Err(fault) => outcome == ReadDirResult::ReadError(fault),
        Ok(Err(total)) => outcome == ReadDirResult::FilelimitExceeded(total),
        Ok(Ok(items)) => outcome is Entries && is_listing_of(outcome->Entries_0@, items@),
    }
}

/// The outcome of reading a directory, its entries sorted.
///
/// `opened` is what opening the directory gave: the entries within the limit, or the number
/// of entries where there are more.
pub fn read_sorted_children(opened: Result<Result<Vec<DirItem>, usize>, IoFault>) -> (result:
    ReadDirResult)
    ensures
        match opened {
            Err(fault) => result == ReadDirResult::ReadError(fault),
            Ok(Err(total)) => result == ReadDirResult::FilelimitExceeded(total),
            Ok(Ok(items)) => {
                &&& result is Entries
                &&& is_listing_of(result->Entries_0@, items@)
            },
        },
        is_outcome_of(result, opened),
{
    match opened {
        Err(fault) => ReadDirResult::ReadError(fault),
        Ok(Err(total)) => ReadDirResult::FilelimitExceeded(total),
        Ok(Ok(items)) => ReadDirResult::Entries(sort_items(items)),
    }
}

} // verus!
