//! What holds of the result of a traversal, and of what an engine asks of the machine.

use crate::config::Config;
use crate::engine::{is_truncated, reads_at_once, wanted_pool};
use crate::entry::{capped, count_forest, lemma_count_concat, TreeView};
use crate::error::IoFault;
use crate::laws::engines::{flat, flat_all};
use vstd::prelude::*;

verus! {

proof fn lemma_forest_count(trees: Seq<TreeView>)
    ensures
        count_forest(trees) == flat_all(trees).len(),
    decreases trees,
{
    if trees.len() > 0 {
        let front = trees.subrange(0, trees.len() - 1);
        let last = trees[trees.len() - 1];
        lemma_forest_count(front);
        lemma_forest_count(last.children);
        assert(trees =~= front + seq![last]);
        lemma_count_concat(front, seq![last]);
        assert(seq![last].subrange(1, 1) =~= Seq::empty());
        assert(count_forest(seq![last].subrange(1, 1)) == 0);
        assert(count_forest(seq![last]) == last.count());
        assert(flat(last).len() == 1 + flat_all(last.children).len());
    }
}

/// A tree has as many nodes as it has entries, one for its root and one for each entry below.
pub proof fn every_entry_is_counted_once(tree: TreeView)
    ensures
        tree.count() == flat(tree).len(),
{
    lemma_forest_count(tree.children);
}

/// A tree says that it has too many entries exactly if there is a limit and more entries than
/// it allows lie below the root. As many as the limit are not too many, and a missing tree has
/// none.
pub proof fn trees_beyond_the_limit_say_so(config: Config, tree: TreeView, max: usize)
    requires
        tree.count() <= usize::MAX,
    ensures
        !is_truncated(config, None),
        config.max_entries is None ==> !is_truncated(config, Some(tree)),
        config.max_entries == Some(max) ==> (is_truncated(config, Some(tree)) <==> flat(tree).len()
            > max + 1),
{
    every_entry_is_counted_once(tree);
}

/// A count that the machine can hold is exact; any other is the largest that it can hold.
pub proof fn counts_are_exact_while_they_fit(count: nat)
    ensures
        count <= usize::MAX ==> capped(count) == count,
        count > usize::MAX ==> capped(count) == usize::MAX,
{
}

/// Worker threads are asked for exactly if traversal is parallel, each with a stack of eight
/// mebibytes. There are as many as the options say, and the pool decides if they say nothing.
pub proof fn workers_are_asked_for_on_request(config: Config, threads: usize)
    ensures
        !config.parallel ==> wanted_pool(config) is None,
        config.parallel ==> wanted_pool(config) is Some && wanted_pool(config)->Some_0.stack_size
            == 8 * 1024 * 1024,
        config.parallel && config.threads == Some(threads) ==> wanted_pool(
            config,
        )->Some_0.num_threads == threads,
        config.parallel && config.threads is None ==> wanted_pool(config)->Some_0.num_threads == 0,
{
}

/// Failures say what went wrong, each in its own words.
pub proof fn failures_have_their_own_words(message: String)
    ensures
        IoFault::Other(message).text() == message@,
        IoFault::AccessDenied.text() == "access denied"@,
        IoFault::PathTooLong.text() == "path too long"@,
        IoFault::UnknownVolume.text() == "cannot determine volume for --one-fs"@,
        IoFault::UnknownRootVolume.text()
            == "--one-fs: cannot determine root volume; cross-device check skipped"@,
{
}

/// At least one directory may be read at a time, so that traversal goes on. Otherwise there may
/// be as many as the options say, and sixty-four if they say nothing.
pub proof fn reading_never_stalls(config: Config, cap: usize)
    ensures
        reads_at_once(config) >= 1,
        config.queue_cap == Some(cap) && cap > 0 ==> reads_at_once(config) == cap,
        config.queue_cap is None ==> reads_at_once(config) == 64,
        config.queue_cap == Some(0usize) ==> reads_at_once(config) == 1,
{
}

} // verus!
