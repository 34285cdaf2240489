//! What holds of the order of directory entries.

use crate::error::IoFault;
use crate::listing::{
    in_rank_order, is_listing_of, is_outcome_of, lemma_of_rank_above, of_rank, readable,
    within_limit, DirItem, ReadDirResult,
};
use vstd::prelude::*;

verus! {

/// Two listings of the same entries are the same: the order is determined.
pub proof fn listings_are_determined(
    first: Seq<DirItem>,
    second: Seq<DirItem>,
    items: Seq<DirItem>,
)
    requires
        is_listing_of(first, items),
        is_listing_of(second, items),
    ensures
        first == second,
{
    assert forall|rank: u64| #[trigger] of_rank(first, rank) == of_rank(second, rank) by {
        assert(of_rank(first, rank) == of_rank(items, rank));
        assert(of_rank(second, rank) == of_rank(items, rank));
    }
    lemma_same_ranks(first, second);
}

/// Nothing has a rank above the last one.
proof fn lemma_top_rank(items: Seq<DirItem>, rank: u64)
    requires
        in_rank_order(items),
        items.len() > 0 ==> items.last().rank < rank,
    ensures
        of_rank(items, rank) == Seq::<DirItem>::empty(),
{
    lemma_of_rank_above(items, rank);
}

proof fn lemma_same_ranks(first: Seq<DirItem>, second: Seq<DirItem>)
    requires
        in_rank_order(first),
        in_rank_order(second),
        forall|rank: u64| #[trigger] of_rank(first, rank) == of_rank(second, rank),
    ensures
        first == second,
    decreases first.len(),
{
    if first.len() == 0 {
        if second.len() > 0 {
            let rank = second.last().rank;
            assert(of_rank(first, rank) == of_rank(second, rank));
            assert(of_rank(second, rank).len() > 0);
        }
        assert(first =~= second);
    } else {
        let top = first.last().rank;
        assert(of_rank(first, top).len() > 0);
        assert(of_rank(second, top) == of_rank(first, top));
        if second.len() == 0 || second.last().rank < top {
            lemma_top_rank(second, top);
        }
        let other = second.last().rank;
        assert(of_rank(second, other) == of_rank(first, other));
        assert(of_rank(second, other).len() > 0);
        if top < other {
            lemma_top_rank(first, other);
        }
        assert(of_rank(first, top).last() == first.last());
        assert(of_rank(second, top).last() == second.last());
        let shorter = first.drop_last();
        let other_shorter = second.drop_last();
        assert forall|rank: u64| #[trigger] of_rank(shorter, rank) == of_rank(
            other_shorter,
            rank,
        ) by {
            assert(of_rank(first, rank) == of_rank(second, rank));
            if rank == top {
                assert(of_rank(first, rank).drop_last() =~= of_rank(shorter, rank));
                assert(of_rank(second, rank).drop_last() =~= of_rank(other_shorter, rank));
            }
        }
        lemma_same_ranks(shorter, other_shorter);
        assert(first =~= shorter.push(first.last()));
        assert(second =~= other_shorter.push(second.last()));
    }
}

/// No two entries have the same rank.
pub open spec fn ranks_differ(items: Seq<DirItem>) -> bool {
    forall|i: int, j: int|
        0 <= i < j < items.len() ==> (#[trigger] items[i]).rank != (#[trigger] items[j]).rank
}

proof fn lemma_only_of_rank(items: Seq<DirItem>, rank: u64)
    requires
        ranks_differ(items),
    ensures
        forall|i: int|
            0 <= i < items.len() && (#[trigger] items[i]).rank == rank ==> of_rank(items, rank)
                == seq![items[i]],
        (forall|i: int| 0 <= i < items.len() ==> (#[trigger] items[i]).rank != rank) ==> of_rank(
            items,
            rank,
        ) == Seq::<DirItem>::empty(),
    decreases items.len(),
{
    if items.len() > 0 {
        let shorter = items.drop_last();
        let last = items.len() - 1;
        lemma_only_of_rank(shorter, rank);
        if items[last].rank == rank {
            assert forall|i: int| 0 <= i < shorter.len() implies (#[trigger] shorter[i]).rank
                != rank by {
                assert(items[i].rank != items[last].rank);
            }
            assert(of_rank(items, rank) =~= seq![items[last]]);
        }
        assert forall|i: int| 0 <= i < items.len() && (#[trigger] items[i]).rank == rank implies
            of_rank(items, rank) == seq![items[i]] by {
            if i < last {
                assert(shorter[i] == items[i]);
                assert(items[i].rank != items[last].rank);
            }
        }
        if forall|i: int| 0 <= i < items.len() ==> (#[trigger] items[i]).rank != rank {
            assert forall|i: int| 0 <= i < shorter.len() implies (#[trigger] shorter[i]).rank
                != rank by {
                assert(items[i].rank != rank);
            }
            assert(items[last].rank != rank);
        }
    }
}

/// Where the sorter tells any two entries apart, the listing does not depend on the order in
/// which the platform returned them.
pub proof fn read_order_does_not_matter(
    first: Seq<DirItem>,
    second: Seq<DirItem>,
    one: Seq<DirItem>,
    other: Seq<DirItem>,
)
    requires
        is_listing_of(first, one),
        is_listing_of(second, other),
        ranks_differ(one),
        ranks_differ(other),
        forall|item: DirItem| #[trigger] one.contains(item) == other.contains(item),
    ensures
        first == second,
{
    assert forall|rank: u64| #[trigger] of_rank(first, rank) == of_rank(second, rank) by {
        assert(of_rank(first, rank) == of_rank(one, rank));
        assert(of_rank(second, rank) == of_rank(other, rank));
        lemma_only_of_rank(one, rank);
        lemma_only_of_rank(other, rank);
        if exists|i: int| 0 <= i < one.len() && (#[trigger] one[i]).rank == rank {
            let i = choose|i: int| 0 <= i < one.len() && (#[trigger] one[i]).rank == rank;
            assert(one.contains(one[i]));
            assert(other.contains(one[i]));
            let j = choose|j: int| 0 <= j < other.len() && other[j] == one[i];
            assert(of_rank(other, rank) == seq![other[j]]);
        } else {
            assert forall|j: int| 0 <= j < other.len() implies (#[trigger] other[j]).rank
                != rank by {
                assert(other.contains(other[j]));
                assert(one.contains(other[j]));
                let i = choose|i: int| 0 <= i < one.len() && one[i] == other[j];
                assert(one[i].rank != rank);
            }
        }
    }
    lemma_same_ranks(first, second);
}

proof fn lemma_count_of_rank(items: Seq<DirItem>, item: DirItem)
    ensures
        items.to_multiset().count(item) == of_rank(items, item.rank).to_multiset().count(item),
    decreases items.len(),
{
    broadcast use vstd::seq_lib::group_to_multiset_ensures;

    if items.len() == 0 {
        assert(items =~= Seq::empty());
    } else {
        let shorter = items.drop_last();
        lemma_count_of_rank(shorter, item);
        assert(items =~= shorter.push(items.last()));
    }
}

/// Sorting neither loses nor adds nor repeats an entry.
pub proof fn sorting_keeps_every_entry(sorted: Seq<DirItem>, items: Seq<DirItem>)
    requires
        is_listing_of(sorted, items),
    ensures
        sorted.to_multiset() == items.to_multiset(),
{
    assert forall|item: DirItem| #[trigger] sorted.to_multiset().count(item)
        == items.to_multiset().count(item) by {
        lemma_count_of_rank(sorted, item);
        lemma_count_of_rank(items, item);
        assert(of_rank(sorted, item.rank) == of_rank(items, item.rank));
    }
    assert(sorted.to_multiset() =~= items.to_multiset());
}

/// The entries that have a rank, in their order.
pub open spec fn at_rank(items: Seq<DirItem>, rank: u64) -> Seq<DirItem> {
    items.filter(|item: DirItem| item.rank == rank)
}

proof fn lemma_of_rank_is_filter(items: Seq<DirItem>, rank: u64)
    ensures
        of_rank(items, rank) == at_rank(items, rank),
    decreases items.len(),
{
    reveal(Seq::filter);
    if items.len() > 0 {
        lemma_of_rank_is_filter(items.drop_last(), rank);
    } else {
        assert(at_rank(items, rank) =~= Seq::empty());
    }
}

/// A listing holds the entries of a directory with ranks that never fall, and those of one
/// rank exactly as they were read, in their order. Nothing else is a listing.
pub proof fn listings_are_sorted_and_stable(sorted: Seq<DirItem>, items: Seq<DirItem>)
    ensures
        is_listing_of(sorted, items) <==> {
            &&& forall|i: int, j: int|
                0 <= i <= j < sorted.len() ==> (#[trigger] sorted[i]).rank <= (
                #[trigger] sorted[j]).rank
            &&& forall|rank: u64| at_rank(sorted, rank) == #[trigger] at_rank(items, rank)
        },
{
    assert forall|rank: u64|
        #![trigger of_rank(sorted, rank)]
        #![trigger at_rank(items, rank)]
        of_rank(sorted, rank) == at_rank(sorted, rank) && of_rank(items, rank) == at_rank(
            items,
            rank,
        ) by {
        lemma_of_rank_is_filter(sorted, rank);
        lemma_of_rank_is_filter(items, rank);
    }
    if is_listing_of(sorted, items) {
        assert forall|rank: u64| at_rank(sorted, rank) == #[trigger] at_rank(items, rank) by {
            assert(of_rank(sorted, rank) == of_rank(items, rank));
        }
    }
}

/// A listing is as long as what was read, and an entry is in it exactly if it was read.
pub proof fn listings_hold_what_was_read(sorted: Seq<DirItem>, items: Seq<DirItem>, item: DirItem)
    requires
        is_listing_of(sorted, items),
    ensures
        sorted.len() == items.len(),
        sorted.contains(item) == items.contains(item),
{
    sorting_keeps_every_entry(sorted, items);
    sorted.to_multiset_ensures();
    items.to_multiset_ensures();
    assert(sorted.to_multiset().count(item) == items.to_multiset().count(item));
}

/// The entries of a directory that can be read are all that were read without an error, in
/// their order.
pub proof fn every_readable_entry_counts<T, E>(entries: Seq<Result<T, E>>)
    ensures
        readable(entries) == entries.filter(|entry: Result<T, E>| entry is Ok).map_values(
            |entry: Result<T, E>| entry->Ok_0,
        ),
    decreases entries.len(),
{
    reveal(Seq::filter);
    let good = |entry: Result<T, E>| entry is Ok;
    let value = |entry: Result<T, E>| entry->Ok_0;
    if entries.len() > 0 {
        let front = entries.drop_last();
        every_readable_entry_counts(front);
        assert(front.filter(good).push(entries.last()).map_values(value) =~= front.filter(
            good,
        ).map_values(value).push(entries.last()->Ok_0));
    } else {
        assert(entries.filter(good).map_values(value) =~= Seq::empty());
    }
}

/// A directory is within the limit exactly if it has no more entries than the limit allows;
/// as many as the limit are not too many, and without a limit there are never too many.
pub proof fn the_file_limit_is_inclusive(count: nat, limit: usize)
    ensures
        within_limit(count, None),
        within_limit(count, Some(limit)) <==> count <= limit,
{
}

/// A directory that could not be opened is reported with the reason, one with too many entries
/// with their number, and any other is listed: all its entries, sorted.
pub proof fn directories_are_read_to_the_end(
    outcome: ReadDirResult,
    fault: IoFault,
    total: usize,
    items: Vec<DirItem>,
)
    ensures
        is_outcome_of(outcome, Err(fault)) <==> outcome == ReadDirResult::ReadError(fault),
        is_outcome_of(outcome, Ok(Err(total))) <==> outcome == ReadDirResult::FilelimitExceeded(
            total,
        ),
        is_outcome_of(outcome, Ok(Ok(items))) ==> {
            &&& outcome is Entries
            &&& outcome->Entries_0@.to_multiset() == items@.to_multiset()
            &&& forall|i: int, j: int|
                0 <= i <= j < outcome->Entries_0@.len() ==> (
                #[trigger] outcome->Entries_0@[i]).rank <= (
                #[trigger] outcome->Entries_0@[j]).rank
        },
{
    if is_outcome_of(outcome, Ok(Ok(items))) {
        sorting_keeps_every_entry(outcome->Entries_0@, items@);
        listings_are_sorted_and_stable(outcome->Entries_0@, items@);
    }
}

} // verus!
