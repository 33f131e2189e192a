//! What the walks of one tree have in common.
//!
//! The worker pool and the sequential walker find the same files under the
//! same hashes, however the workers of the pool were scheduled. So do two
//! scans of a tree that has not changed between them.

use crate::error::ScanError;
use crate::index::{
    lemma_no_shared_hash_no_group, lemma_same_content_same_groups, GroupView, IndexView,
};
use crate::pool_run::{is_run, lemma_pool_indexes_tree, lemma_run_inv, PoolRun};
use crate::tree::{all_dirs, all_wf, entries_of, holders_in, Node};
use crate::walker::{lemma_walk_indexes_tree, walk_all, WalkerView};
use vstd::multiset::Multiset;
use vstd::prelude::*;

verus! {

/// The index at the end of the sequential walk of the trees `roots`.
pub open spec fn sequential_index(roots: Seq<Node>) -> IndexView {
    walk_all(WalkerView::seeded(entries_of(roots)), roots).index
}

/// The sequential walk indexes the trees it is given: every file is held
/// under the hash of its content, as often as it occurs.
pub proof fn lemma_sequential_indexes_tree(roots: Seq<Node>)
    requires
        all_wf(roots),
        all_dirs(roots),
    ensures
        sequential_index(roots).wf(),
        walk_all(WalkerView::seeded(entries_of(roots)), roots).outcome() == Ok::<
            IndexView,
            ScanError,
        >(sequential_index(roots)),
        forall|h: u128| #[trigger] sequential_index(roots).holders(h) == holders_in(roots, h),
{
    let start = WalkerView::seeded(entries_of(roots));
    assert forall|i: int| 0 <= i < start.stack.len() implies (#[trigger] start.stack[i]).is_dir by {
        assert(roots[i].wf() && roots[i] is Dir);
    }
    lemma_walk_indexes_tree(start, roots);
    assert forall|h: u128| #[trigger]
        sequential_index(roots).holders(h) == holders_in(roots, h) by {
        assert(start.index.bucket(h) =~= Seq::empty());
        assert(start.index.holders(h) =~= Multiset::empty()) by {
            broadcast use vstd::seq_lib::group_to_multiset_ensures;

        }
        assert(sequential_index(roots).holders(h) == start.index.holders(h).add(
            holders_in(roots, h),
        ));
        assert(Multiset::<crate::entry::EntryView>::empty().add(holders_in(roots, h))
            =~= holders_in(roots, h));
    }
}

/// The two engines agree. For every tree, the index of a parallel walk that
/// is done, whatever the number of workers and the order of their steps, and
/// the index of the sequential walk hold the same files under the same
/// hashes; only the order of the files under a hash, and of the hashes, may
/// differ. They have the same duplicate groups, up to that order.
pub proof fn lemma_engines_agree(trace: Seq<PoolRun>, workers: nat, roots: Seq<Node>)
    requires
        is_run(trace, workers, roots),
        workers > 0,
        roots.len() > 0,
        all_wf(roots),
        all_dirs(roots),
        trace.last().pool.phase is Done,
    ensures
        trace.last().pool.index.same_content(sequential_index(roots)),
        forall|h: u128|
            trace.last().pool.index.buckets.contains_key(h) == sequential_index(
                roots,
            ).buckets.contains_key(h),
        forall|h: u128|
            trace.last().pool.index.is_duplicate(h) == sequential_index(roots).is_duplicate(h),
        trace.last().pool.index.groups().len() == sequential_index(roots).groups().len(),
{
    lemma_pool_indexes_tree(trace, workers, roots);
    lemma_sequential_indexes_tree(roots);
    lemma_run_inv(trace, workers, roots, trace.len() - 1);
    let parallel = trace.last().pool.index;
    let sequential = sequential_index(roots);
    assert forall|h: u128| parallel.holders(h) == sequential.holders(h) by {
        assert(parallel.holders(h) == holders_in(roots, h));
        assert(sequential.holders(h) == holders_in(roots, h));
    }
    lemma_same_content_same_groups(parallel, sequential);
}

/// A scan can be repeated. Two parallel walks of an unchanged tree that are
/// done, each with its own number of workers and its own order of steps,
/// have the same duplicate groups: the same hashes are shared, and under
/// each hash the same files are held, though perhaps in another order.
pub proof fn lemma_scans_repeat(
    first: Seq<PoolRun>,
    first_workers: nat,
    second: Seq<PoolRun>,
    second_workers: nat,
    roots: Seq<Node>,
)
    requires
        is_run(first, first_workers, roots),
        is_run(second, second_workers, roots),
        first_workers > 0,
        second_workers > 0,
        roots.len() > 0,
        all_wf(roots),
        all_dirs(roots),
        first.last().pool.phase is Done,
        second.last().pool.phase is Done,
    ensures
        first.last().pool.index.same_content(second.last().pool.index),
        forall|h: u128|
            first.last().pool.index.buckets.contains_key(h)
                == second.last().pool.index.buckets.contains_key(h),
        forall|h: u128|
            first.last().pool.index.is_duplicate(h) == second.last().pool.index.is_duplicate(h),
        first.last().pool.index.groups().len() == second.last().pool.index.groups().len(),
{
    lemma_pool_indexes_tree(first, first_workers, roots);
    lemma_pool_indexes_tree(second, second_workers, roots);
    lemma_run_inv(first, first_workers, roots, first.len() - 1);
    lemma_run_inv(second, second_workers, roots, second.len() - 1);
    let a = first.last().pool.index;
    let b = second.last().pool.index;
    assert forall|h: u128| a.holders(h) == b.holders(h) by {
        assert(a.holders(h) == holders_in(roots, h));
        assert(b.holders(h) == holders_in(roots, h));
    }
    lemma_same_content_same_groups(a, b);
}

/// Whether no two files of the trees `roots` have the same content hash.
pub open spec fn hashes_distinct(roots: Seq<Node>) -> bool {
    forall|h: u128| (#[trigger] holders_in(roots, h)).len() <= 1
}

/// A tree without two files of the same hash has no duplicate group,
/// whichever engine walks it.
pub proof fn lemma_distinct_hashes_no_groups(trace: Seq<PoolRun>, workers: nat, roots: Seq<Node>)
    requires
        is_run(trace, workers, roots),
        workers > 0,
        roots.len() > 0,
        all_wf(roots),
        all_dirs(roots),
        trace.last().pool.phase is Done,
        hashes_distinct(roots),
    ensures
        trace.last().pool.index.groups() == Seq::<GroupView>::empty(),
        sequential_index(roots).groups() == Seq::<GroupView>::empty(),
{
    broadcast use vstd::seq_lib::group_to_multiset_ensures;

    lemma_pool_indexes_tree(trace, workers, roots);
    lemma_sequential_indexes_tree(roots);
    lemma_run_inv(trace, workers, roots, trace.len() - 1);
    let parallel = trace.last().pool.index;
    let sequential = sequential_index(roots);
    assert forall|h: u128| parallel.bucket(h).len() <= 1 by {
        assert(parallel.holders(h) == holders_in(roots, h));
        assert(parallel.bucket(h).to_multiset().len() == parallel.bucket(h).len());
    }
    assert forall|h: u128| sequential.bucket(h).len() <= 1 by {
        assert(sequential.holders(h) == holders_in(roots, h));
        assert(sequential.bucket(h).to_multiset().len() == sequential.bucket(h).len());
    }
    lemma_no_shared_hash_no_group(parallel);
    lemma_no_shared_hash_no_group(sequential);
}

} // verus!
