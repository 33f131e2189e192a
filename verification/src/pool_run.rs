//! Runs of the worker pool over an unchanged tree.
//!
//! The pool does not know the tree; it is told. A run pairs every state of
//! the pool with the part of the tree that stands behind it: the directories
//! queued, and for every worker that holds a task the entries of its listing
//! that it has not reported yet. Workers may take their steps in any order.
//! Whatever the order, a run that ends has indexed every file of the tree
//! under its hash, once; and it does end, for every claim of a task, every
//! report and every completion takes one of the finitely many steps that the
//! tree asks for.

use crate::digest::digest_of;
use crate::entry::EntryView;
use crate::error::ScanError;
use crate::index::{lemma_insert_holders, lemma_insert_wf};
use crate::pool::{tasks_of, PoolView};
use crate::tree::{
    all_dirs, all_wf, entries_of, holders_in, lemma_holders_first, lemma_holders_none,
    lemma_holders_one, lemma_holders_push, lemma_steps_at_least, lemma_steps_first,
    lemma_steps_one, lemma_steps_push, steps_in, Node,
};
use vstd::multiset::Multiset;
use vstd::prelude::*;

verus! {

/// A state of the pool together with the part of the tree behind it.
pub struct PoolRun {
    pub pool: PoolView,
    /// The directories that stand behind the queued tasks, in order.
    pub queued: Seq<Node>,
    /// For every worker that holds a task, what is left of its listing.
    pub jobs: Seq<Seq<Node>>,
}

/// The files with the hash `digest` in what the workers have left to report.
pub open spec fn jobs_holders(jobs: Seq<Seq<Node>>, digest: u128) -> Multiset<EntryView>
    decreases jobs.len(),
{
    if jobs.len() == 0 {
        Multiset::empty()
    } else {
        jobs_holders(jobs.drop_last(), digest).add(holders_in(jobs.last(), digest))
    }
}

impl PoolRun {
    /// The run before any worker has started.
    pub open spec fn start(workers: nat, roots: Seq<Node>) -> PoolRun {
        PoolRun {
            pool: PoolView::seeded(workers, entries_of(roots)),
            queued: roots,
            jobs: Seq::empty(),
        }
    }

    /// A worker asks for work. If it is given a task, it lists the directory
    /// and has all of the listing left to report.
    pub open spec fn claims(self, next: PoolRun) -> bool {
        &&& next.pool == self.pool.claim()
        &&& if self.pool.claimed() is Task {
            &&& self.queued.len() > 0
            &&& next.queued == self.queued.drop_first()
            &&& next.jobs == self.jobs.push(self.queued[0].children())
        } else {
            &&& next.queued == self.queued
            &&& next.jobs == self.jobs
        }
    }

    /// The worker with the job `j` reports the next entry of its listing: a
    /// subdirectory becomes a task, a file is recorded under the hash of its
    /// content.
    pub open spec fn reports(self, next: PoolRun, j: int) -> bool {
        &&& 0 <= j < self.jobs.len()
        &&& self.jobs[j].len() > 0
        &&& next.jobs == self.jobs.update(j, self.jobs[j].drop_first())
        &&& match self.jobs[j][0] {
            Node::Dir { entry, .. } => {
                &&& next.pool == self.pool.discover(entry)
                &&& next.queued == self.queued.push(self.jobs[j][0])
            },
            Node::File { entry, content } => {
                &&& next.pool == self.pool.record(digest_of(content), entry)
                &&& next.queued == self.queued
            },
        }
    }

    /// The worker with the job `j` has reported its whole listing and counts
    /// its task as complete.
    pub open spec fn completes(self, next: PoolRun, j: int) -> bool {
        &&& 0 <= j < self.jobs.len()
        &&& self.jobs[j].len() == 0
        &&& next.jobs == self.jobs.remove(j)
        &&& next.queued == self.queued
        &&& next.pool == self.pool.complete()
    }

    /// A worker reports a failure.
    pub open spec fn aborts(self, next: PoolRun) -> bool {
        next.pool == self.pool.abort()
    }

    /// One step of some worker.
    pub open spec fn step(self, next: PoolRun) -> bool {
        ||| self.claims(next)
        ||| exists|j: int| self.reports(next, j)
        ||| exists|j: int| self.completes(next, j)
        ||| self.aborts(next)
    }

    /// What holds of every state of a run over the trees `roots`: the pool
    /// obeys its protocol; while it runs, its queue and its counter of tasks
    /// claimed match the tree, and every file of the tree is either indexed,
    /// or below a queued directory, or in a listing not yet fully reported;
    /// and once it is done, every file of the tree is indexed.
    pub open spec fn inv(self, roots: Seq<Node>) -> bool {
        &&& self.pool.wf()
        &&& self.pool.phase is Running ==> {
            &&& self.pool.queue == tasks_of(entries_of(self.queued))
            &&& self.pool.in_flight == self.jobs.len()
            &&& all_wf(self.queued)
            &&& all_dirs(self.queued)
            &&& forall|j: int| 0 <= j < self.jobs.len() ==> all_wf(#[trigger] self.jobs[j])
            &&& forall|h: u128|
                (#[trigger] self.pool.index.holders(h)).add(holders_in(self.queued, h)).add(
                    jobs_holders(self.jobs, h),
                ) == holders_in(roots, h)
        }
        &&& self.pool.phase is Done ==> forall|h: u128| #[trigger]
            self.pool.index.holders(h) == holders_in(roots, h)
    }
}

/// Whether `trace` is a run of `workers` workers over the trees `roots`: it
/// starts with the seeded pool, and every state follows from the one before
/// by one step of some worker.
pub open spec fn is_run(trace: Seq<PoolRun>, workers: nat, roots: Seq<Node>) -> bool {
    &&& trace.len() > 0
    &&& trace[0] == PoolRun::start(workers, roots)
    &&& forall|i: int| 0 <= i < trace.len() - 1 ==> (#[trigger] trace[i]).step(trace[i + 1])
}

/// Replacing the rest of one listing changes what is left to report by the
/// difference between the two.
pub proof fn lemma_jobs_update(jobs: Seq<Seq<Node>>, j: int, rest: Seq<Node>, digest: u128)
    requires
        0 <= j < jobs.len(),
    ensures
        jobs_holders(jobs.update(j, rest), digest).add(holders_in(jobs[j], digest))
            == jobs_holders(jobs, digest).add(holders_in(rest, digest)),
    decreases jobs.len(),
{
    let changed = jobs.update(j, rest);
    if j == jobs.len() - 1 {
        assert(changed.drop_last() =~= jobs.drop_last());
        assert(jobs_holders(changed, digest).add(holders_in(jobs[j], digest)) =~= jobs_holders(
            jobs,
            digest,
        ).add(holders_in(rest, digest)));
    } else {
        lemma_jobs_update(jobs.drop_last(), j, rest, digest);
        assert(changed.drop_last() =~= jobs.drop_last().update(j, rest));
        assert(changed.last() == jobs.last());
        assert(jobs_holders(changed, digest).add(holders_in(jobs[j], digest)) =~= jobs_holders(
            jobs.drop_last().update(j, rest),
            digest,
        ).add(holders_in(jobs[j], digest)).add(holders_in(jobs.last(), digest)));
        assert(jobs_holders(changed, digest).add(holders_in(jobs[j], digest)) =~= jobs_holders(
            jobs,
            digest,
        ).add(holders_in(rest, digest)));
    }
}

/// Taking a listing away takes its files from what is left to report.
pub proof fn lemma_jobs_remove(jobs: Seq<Seq<Node>>, j: int, digest: u128)
    requires
        0 <= j < jobs.len(),
    ensures
        jobs_holders(jobs.remove(j), digest).add(holders_in(jobs[j], digest)) == jobs_holders(
            jobs,
            digest,
        ),
    decreases jobs.len(),
{
    let fewer = jobs.remove(j);
    if j == jobs.len() - 1 {
        assert(fewer =~= jobs.drop_last());
    } else {
        lemma_jobs_remove(jobs.drop_last(), j, digest);
        assert(fewer.drop_last() =~= jobs.drop_last().remove(j));
        assert(fewer.last() == jobs.last());
        assert(jobs_holders(fewer, digest).add(holders_in(jobs[j], digest)) =~= jobs_holders(
            jobs.drop_last().remove(j),
            digest,
        ).add(holders_in(jobs[j], digest)).add(holders_in(jobs.last(), digest)));
    }
}

/// The seeded pool stands in the right relation to the trees it was seeded
/// with.
pub proof fn lemma_start_inv(workers: nat, roots: Seq<Node>)
    requires
        workers > 0,
        roots.len() > 0,
        all_wf(roots),
        all_dirs(roots),
    ensures
        PoolRun::start(workers, roots).inv(roots),
{
    let run = PoolRun::start(workers, roots);
    assert forall|i: int| 0 <= i < run.pool.queue.len() implies (#[trigger] run.pool.queue[i])
        is Some && run.pool.queue[i]->0.is_dir by {
        assert(roots[i].wf());
        assert(roots[i] is Dir);
    }
    assert forall|h: u128|
        (#[trigger] run.pool.index.holders(h)).add(holders_in(run.queued, h)).add(
            jobs_holders(run.jobs, h),
        ) == holders_in(roots, h) by {
        assert(run.pool.index.bucket(h) =~= Seq::empty());
        assert(run.pool.index.holders(h) =~= Multiset::empty()) by {
            broadcast use vstd::seq_lib::group_to_multiset_ensures;

        }
        assert(Multiset::<EntryView>::empty().add(holders_in(roots, h)).add(Multiset::empty())
            =~= holders_in(roots, h));
    }
}

/// A claim keeps a run in the right relation to its trees.
pub proof fn lemma_claims_inv(cur: PoolRun, next: PoolRun, roots: Seq<Node>)
    requires
        cur.inv(roots),
        cur.claims(next),
    ensures
        next.inv(roots),
{
    let pool = cur.pool;
    if pool.phase is Failed || pool.queue.len() == 0 {
    } else if pool.phase is Done {
        assert(pool.queue[0] is None);
        assert forall|i: int| 0 <= i < next.pool.queue.len() implies (
        #[trigger] next.pool.queue[i]) is None by {
            assert(pool.queue[i + 1] is None);
        }
    } else {
        assert(pool.queue[0] is Some);
        let head = cur.queued[0];
        let rest = cur.queued.drop_first();
        assert(head.wf() && head is Dir);
        assert(all_wf(head.children()));
        assert(next.pool.queue =~= tasks_of(entries_of(rest)));
        assert forall|i: int| 0 <= i < next.pool.queue.len() implies (
        #[trigger] next.pool.queue[i]) is Some && next.pool.queue[i]->0.is_dir by {
            assert(pool.queue[i + 1] is Some);
        }
        assert forall|j: int| 0 <= j < next.jobs.len() implies all_wf(#[trigger] next.jobs[j]) by {
            if j < cur.jobs.len() {
                assert(next.jobs[j] == cur.jobs[j]);
            }
        }
        assert forall|h: u128|
            (#[trigger] next.pool.index.holders(h)).add(holders_in(next.queued, h)).add(
                jobs_holders(next.jobs, h),
            ) == holders_in(roots, h) by {
            lemma_holders_first(cur.queued, h);
            lemma_holders_one(head, h);
            assert(next.jobs.drop_last() =~= cur.jobs);
            assert(next.jobs.last() == head.children());
            assert(cur.pool.index.holders(h).add(holders_in(cur.queued, h)).add(
                jobs_holders(cur.jobs, h),
            ) == holders_in(roots, h));
            assert(next.pool.index.holders(h).add(holders_in(rest, h)).add(
                jobs_holders(cur.jobs, h).add(holders_in(head.children(), h)),
            ) =~= cur.pool.index.holders(h).add(
                holders_in(head.children(), h).add(holders_in(rest, h)),
            ).add(jobs_holders(cur.jobs, h)));
        }
    }
}

/// A report keeps a run in the right relation to its trees.
pub proof fn lemma_reports_inv(cur: PoolRun, next: PoolRun, roots: Seq<Node>, j: int)
    requires
        cur.inv(roots),
        cur.reports(next, j),
    ensures
        next.inv(roots),
{
    let pool = cur.pool;
    if pool.phase is Running {
        let node = cur.jobs[j][0];
        let rest = cur.jobs[j].drop_first();
        assert(all_wf(cur.jobs[j]));
        assert(node.wf());
        assert forall|k: int| 0 <= k < next.jobs.len() implies all_wf(#[trigger] next.jobs[k]) by {
            if k == j {
                assert forall|i: int| 0 <= i < rest.len() implies (#[trigger] rest[i]).wf() by {
                    assert(cur.jobs[j][i + 1].wf());
                }
            } else {
                assert(next.jobs[k] == cur.jobs[k]);
            }
        }
        match node {
            Node::Dir { entry, .. } => {
                assert(next.pool.queue =~= tasks_of(entries_of(next.queued)));
                assert forall|i: int| 0 <= i < next.queued.len() implies (
                #[trigger] next.queued[i]).wf() && next.queued[i] is Dir by {
                    if i < cur.queued.len() {
                        assert(cur.queued[i].wf() && cur.queued[i] is Dir);
                    }
                }
            },
            Node::File { entry, content } => {
                lemma_insert_wf(pool.index, digest_of(content), entry);
            },
        }
        assert forall|h: u128|
            (#[trigger] next.pool.index.holders(h)).add(holders_in(next.queued, h)).add(
                jobs_holders(next.jobs, h),
            ) == holders_in(roots, h) by {
            lemma_jobs_update(cur.jobs, j, rest, h);
            lemma_holders_first(cur.jobs[j], h);
            lemma_holders_one(node, h);
            assert(cur.pool.index.holders(h).add(holders_in(cur.queued, h)).add(
                jobs_holders(cur.jobs, h),
            ) == holders_in(roots, h));
            let one = holders_in(seq![node], h);
            let left = jobs_holders(next.jobs, h);
            assert(left.add(one.add(holders_in(rest, h))) == jobs_holders(cur.jobs, h).add(
                holders_in(rest, h),
            ));
            assert(left.add(one) =~= jobs_holders(cur.jobs, h)) by {
                assert forall|e: EntryView| left.add(one).count(e) == jobs_holders(
                    cur.jobs,
                    h,
                ).count(e) by {
                    assert(left.add(one.add(holders_in(rest, h))).count(e) == jobs_holders(
                        cur.jobs,
                        h,
                    ).add(holders_in(rest, h)).count(e));
                }
            }
            match node {
                Node::Dir { entry, .. } => {
                    lemma_holders_push(cur.queued, node, h);
                    assert(next.pool.index.holders(h).add(holders_in(next.queued, h)).add(left)
                        =~= cur.pool.index.holders(h).add(holders_in(cur.queued, h)).add(
                        left.add(one),
                    ));
                },
                Node::File { entry, content } => {
                    lemma_insert_holders(pool.index, digest_of(content), entry, h);
                    assert(next.pool.index.holders(h).add(holders_in(next.queued, h)).add(left)
                        =~= cur.pool.index.holders(h).add(holders_in(cur.queued, h)).add(
                        left.add(one),
                    ));
                },
            }
        }
    }
}

/// A completion keeps a run in the right relation to its trees.
pub proof fn lemma_completes_inv(cur: PoolRun, next: PoolRun, roots: Seq<Node>, j: int)
    requires
        cur.inv(roots),
        cur.completes(next, j),
    ensures
        next.inv(roots),
{
    let pool = cur.pool;
    if pool.phase is Running {
        assert(pool.in_flight > 0);
        assert forall|h: u128|
            jobs_holders(next.jobs, h) == jobs_holders(cur.jobs, h) by {
            lemma_jobs_remove(cur.jobs, j, h);
            assert(cur.jobs[j] =~= Seq::empty());
            lemma_holders_none(h);
            assert(jobs_holders(next.jobs, h).add(Multiset::empty()) =~= jobs_holders(
                next.jobs,
                h,
            ));
        }
        if pool.outstanding == 1 {
            assert(pool.queue.len() == 0);
            assert(cur.queued =~= Seq::empty());
            assert(next.jobs =~= Seq::empty());
            assert(next.pool.queue =~= crate::pool::stops(pool.workers));
            assert forall|h: u128| #[trigger]
                next.pool.index.holders(h) == holders_in(roots, h) by {
                lemma_holders_none(h);
                assert(cur.pool.index.holders(h).add(holders_in(cur.queued, h)).add(
                    jobs_holders(cur.jobs, h),
                ) == holders_in(roots, h));
                assert(jobs_holders(next.jobs, h) == jobs_holders(cur.jobs, h));
                assert(cur.pool.index.holders(h).add(Multiset::empty()).add(Multiset::empty())
                    =~= cur.pool.index.holders(h));
            }
        } else {
            assert forall|k: int| 0 <= k < next.jobs.len() implies all_wf(
                #[trigger] next.jobs[k],
            ) by {
                if k < j {
                    assert(next.jobs[k] == cur.jobs[k]);
                } else {
                    assert(next.jobs[k] == cur.jobs[k + 1]);
                }
            }
            assert forall|h: u128|
                (#[trigger] next.pool.index.holders(h)).add(holders_in(next.queued, h)).add(
                    jobs_holders(next.jobs, h),
                ) == holders_in(roots, h) by {
                assert(jobs_holders(next.jobs, h) == jobs_holders(cur.jobs, h));
                assert(cur.pool.index.holders(h).add(holders_in(cur.queued, h)).add(
                    jobs_holders(cur.jobs, h),
                ) == holders_in(roots, h));
            }
        }
    }
}

/// Every step keeps a run in the right relation to its trees.
pub proof fn lemma_step_inv(cur: PoolRun, next: PoolRun, roots: Seq<Node>)
    requires
        cur.inv(roots),
        cur.step(next),
    ensures
        next.inv(roots),
{
    if cur.claims(next) {
        lemma_claims_inv(cur, next, roots);
    } else if exists|j: int| cur.reports(next, j) {
        let j = choose|j: int| cur.reports(next, j);
        lemma_reports_inv(cur, next, roots, j);
    } else if exists|j: int| cur.completes(next, j) {
        let j = choose|j: int| cur.completes(next, j);
        lemma_completes_inv(cur, next, roots, j);
    } else {
        assert(cur.aborts(next));
    }
}

/// Every state of a run stands in the right relation to the trees walked.
pub proof fn lemma_run_inv(trace: Seq<PoolRun>, workers: nat, roots: Seq<Node>, i: int)
    requires
        is_run(trace, workers, roots),
        workers > 0,
        roots.len() > 0,
        all_wf(roots),
        all_dirs(roots),
        0 <= i < trace.len(),
    ensures
        trace[i].inv(roots),
    decreases i,
{
    if i == 0 {
        lemma_start_inv(workers, roots);
    } else {
        lemma_run_inv(trace, workers, roots, i - 1);
        assert(trace[i - 1].step(trace[i - 1 + 1]));
        lemma_step_inv(trace[i - 1], trace[i], roots);
    }
}

/// A walk that is done has indexed the tree: whatever the number of
/// workers and the order of their steps, every file of the trees walked is
/// held under the hash of its content, as often as it occurs, and nothing
/// else is held.
pub proof fn lemma_pool_indexes_tree(trace: Seq<PoolRun>, workers: nat, roots: Seq<Node>)
    requires
        is_run(trace, workers, roots),
        workers > 0,
        roots.len() > 0,
        all_wf(roots),
        all_dirs(roots),
        trace.last().pool.phase is Done,
    ensures
        trace.last().pool.outcome() == Ok::<crate::index::IndexView, ScanError>(
            trace.last().pool.index,
        ),
        forall|h: u128| #[trigger] trace.last().pool.index.holders(h) == holders_in(roots, h),
{
    lemma_run_inv(trace, workers, roots, trace.len() - 1);
}

/// While a walk runs it cannot be stuck: a task is queued, or a worker holds
/// one and has a step to take.
pub proof fn lemma_running_can_progress(trace: Seq<PoolRun>, workers: nat, roots: Seq<Node>, i: int)
    requires
        is_run(trace, workers, roots),
        workers > 0,
        roots.len() > 0,
        all_wf(roots),
        all_dirs(roots),
        0 <= i < trace.len(),
        trace[i].pool.phase is Running,
    ensures
        trace[i].pool.claimed() is Task || trace[i].jobs.len() > 0,
{
    lemma_run_inv(trace, workers, roots, i);
    if trace[i].pool.queue.len() > 0 {
        assert(trace[i].pool.queue[0] is Some);
    }
}

/// A step never brings a walk that is done or has failed back to life, and
/// it leaves the index of a walk that is done as it is.
pub proof fn lemma_end_is_final(cur: PoolRun, next: PoolRun)
    requires
        cur.step(next),
        !(cur.pool.phase is Running),
    ensures
        next.pool.phase == cur.pool.phase,
        next.pool.index == cur.pool.index,
        next.pool.outcome() == cur.pool.outcome(),
{
}

/// Once a walk has left the running phase it stays where it is: what it
/// hands to its caller no longer changes.
pub proof fn lemma_outcome_settled(
    trace: Seq<PoolRun>,
    workers: nat,
    roots: Seq<Node>,
    i: int,
    k: int,
)
    requires
        is_run(trace, workers, roots),
        0 <= i <= k < trace.len(),
        !(trace[i].pool.phase is Running),
    ensures
        trace[k].pool.phase == trace[i].pool.phase,
        trace[k].pool.outcome() == trace[i].pool.outcome(),
    decreases k - i,
{
    if i < k {
        lemma_outcome_settled(trace, workers, roots, i, k - 1);
        assert(trace[k - 1].step(trace[k - 1 + 1]));
        lemma_end_is_final(trace[k - 1], trace[k]);
    }
}

/// Failure is final: from the step at which a worker reports a failure, the
/// walk hands its caller that failure and no index, whatever the other
/// workers still do.
pub proof fn lemma_failure_propagates(
    trace: Seq<PoolRun>,
    workers: nat,
    roots: Seq<Node>,
    i: int,
    k: int,
)
    requires
        is_run(trace, workers, roots),
        0 <= i < k < trace.len(),
        trace[i].pool.phase is Running,
        trace[i].aborts(trace[i + 1]),
    ensures
        trace[k].pool.outcome() == Err::<crate::index::IndexView, ScanError>(
            ScanError::IoFailure,
        ),
{
    lemma_outcome_settled(trace, workers, roots, i + 1, k);
}

/// The stop sentinels are queued once: the step that ends the running phase
/// by a completion queues one sentinel per worker, and no later step finds
/// the walk running again.
pub proof fn lemma_shutdown_once(
    trace: Seq<PoolRun>,
    workers: nat,
    roots: Seq<Node>,
    i: int,
    k: int,
)
    requires
        is_run(trace, workers, roots),
        workers > 0,
        roots.len() > 0,
        all_wf(roots),
        all_dirs(roots),
        0 <= i < k < trace.len(),
        trace[i].pool.phase is Running,
        trace[i + 1].pool.phase is Done,
    ensures
        trace[i + 1].pool.queue == crate::pool::stops(workers),
        trace[i + 1].pool.outstanding == 0,
        trace[k].pool.phase is Done,
{
    lemma_run_inv(trace, workers, roots, i);
    lemma_workers_fixed(trace, workers, roots, i);
    lemma_outcome_settled(trace, workers, roots, i + 1, k);
    let cur = trace[i];
    let next = trace[i + 1];
    assert(cur.step(next));
    assert(cur.pool.completes_walk());
    assert(cur.pool.queue.len() == 0);
    assert(next.pool.queue =~= crate::pool::stops(workers));
}

/// The number of workers does not change in a run.
pub proof fn lemma_workers_fixed(trace: Seq<PoolRun>, workers: nat, roots: Seq<Node>, i: int)
    requires
        is_run(trace, workers, roots),
        0 <= i < trace.len(),
    ensures
        trace[i].pool.workers == workers,
    decreases i,
{
    if i > 0 {
        lemma_workers_fixed(trace, workers, roots, i - 1);
        assert(trace[i - 1].step(trace[i - 1 + 1]));
    }
}

/// The steps that the listings `jobs` still ask of the workers that hold
/// them: what is left of each listing, and the completion of each task.
pub open spec fn jobs_steps(jobs: Seq<Seq<Node>>) -> nat
    decreases jobs.len(),
{
    if jobs.len() == 0 {
        0
    } else {
        jobs_steps(jobs.drop_last()) + 1 + steps_in(jobs.last())
    }
}

impl PoolRun {
    /// The steps that the walk still has to take: for every queued directory
    /// its claim, its completion and what is below it; for every task held
    /// its completion and what is left of its listing.
    pub open spec fn work_left(self) -> nat {
        (steps_in(self.queued) - self.queued.len()) as nat + jobs_steps(self.jobs)
    }
}

/// Replacing the rest of one listing changes the steps left by the
/// difference between the two.
pub proof fn lemma_jobs_steps_update(jobs: Seq<Seq<Node>>, j: int, rest: Seq<Node>)
    requires
        0 <= j < jobs.len(),
    ensures
        jobs_steps(jobs.update(j, rest)) + steps_in(jobs[j]) == jobs_steps(jobs) + steps_in(rest),
    decreases jobs.len(),
{
    let changed = jobs.update(j, rest);
    if j == jobs.len() - 1 {
        assert(changed.drop_last() =~= jobs.drop_last());
    } else {
        lemma_jobs_steps_update(jobs.drop_last(), j, rest);
        assert(changed.drop_last() =~= jobs.drop_last().update(j, rest));
        assert(changed.last() == jobs.last());
    }
}

/// Taking a listing away takes its steps, and the completion of its task.
pub proof fn lemma_jobs_steps_remove(jobs: Seq<Seq<Node>>, j: int)
    requires
        0 <= j < jobs.len(),
    ensures
        jobs_steps(jobs.remove(j)) + 1 + steps_in(jobs[j]) == jobs_steps(jobs),
    decreases jobs.len(),
{
    let fewer = jobs.remove(j);
    if j == jobs.len() - 1 {
        assert(fewer =~= jobs.drop_last());
    } else {
        lemma_jobs_steps_remove(jobs.drop_last(), j);
        assert(fewer.drop_last() =~= jobs.drop_last().remove(j));
        assert(fewer.last() == jobs.last());
    }
}

/// As long as the walk runs, steps are left to take.
pub proof fn lemma_running_has_work(cur: PoolRun, roots: Seq<Node>)
    requires
        cur.inv(roots),
        cur.pool.phase is Running,
    ensures
        cur.work_left() > 0,
{
    lemma_steps_at_least(cur.queued);
    if cur.queued.len() > 0 {
        lemma_steps_first(cur.queued);
        lemma_steps_one(cur.queued[0]);
        lemma_steps_at_least(cur.queued.drop_first());
        assert(cur.queued[0] is Dir);
    } else {
        assert(cur.pool.queue.len() == 0);
        assert(cur.jobs.len() > 0);
    }
}

/// The claim of a task takes the walk one step further.
pub proof fn lemma_claim_takes_a_step(cur: PoolRun, next: PoolRun, roots: Seq<Node>)
    requires
        cur.inv(roots),
        cur.pool.phase is Running,
        cur.claims(next),
        cur.pool.claimed() is Task,
    ensures
        next.work_left() + 1 == cur.work_left(),
{
    let head = cur.queued[0];
    let rest = cur.queued.drop_first();
    assert(head is Dir);
    lemma_steps_first(cur.queued);
    lemma_steps_one(head);
    lemma_steps_at_least(rest);
    assert(next.jobs.drop_last() =~= cur.jobs);
    assert(next.jobs.last() == head.children());
}

/// The report of an entry takes the walk one step further.
pub proof fn lemma_report_takes_a_step(cur: PoolRun, next: PoolRun, roots: Seq<Node>, j: int)
    requires
        cur.inv(roots),
        cur.pool.phase is Running,
        cur.reports(next, j),
    ensures
        next.work_left() + 1 == cur.work_left(),
{
    let node = cur.jobs[j][0];
    let rest = cur.jobs[j].drop_first();
    lemma_jobs_steps_update(cur.jobs, j, rest);
    lemma_steps_first(cur.jobs[j]);
    lemma_steps_one(node);
    lemma_steps_at_least(cur.queued);
    if node is Dir {
        lemma_steps_push(cur.queued, node);
        lemma_steps_at_least(next.queued);
    }
}

/// The completion of a task takes the walk one step further, and the walk
/// is done with it exactly if it was the last step left.
pub proof fn lemma_completion_takes_a_step(cur: PoolRun, next: PoolRun, roots: Seq<Node>, j: int)
    requires
        cur.inv(roots),
        cur.pool.phase is Running,
        cur.completes(next, j),
    ensures
        next.work_left() + 1 == cur.work_left(),
        next.pool.phase is Done <==> next.work_left() == 0,
        !(next.pool.phase is Done) ==> next.pool.phase is Running,
        next.pool.phase is Done ==> next.queued.len() == 0 && next.jobs.len() == 0,
{
    lemma_jobs_steps_remove(cur.jobs, j);
    assert(cur.jobs[j] =~= Seq::empty());
    assert(crate::tree::forest(Seq::<Node>::empty()) =~= Seq::empty());
    assert(crate::tree::dir_nodes(Seq::<Node>::empty()) =~= Seq::empty()) by {
        broadcast use vstd::seq_lib::group_filter_ensures;

    }
    assert(steps_in(Seq::<Node>::empty()) == 0);
    lemma_completes_inv(cur, next, roots, j);
    if next.pool.phase is Running {
        lemma_running_has_work(next, roots);
    } else {
        assert(cur.pool.outstanding == 1);
        assert(cur.pool.queue.len() == 0);
        assert(cur.queued =~= Seq::empty());
        assert(next.jobs =~= Seq::empty());
    }
}

impl PoolRun {
    /// A step by which the walk gets on: the claim of a task, the report of
    /// an entry, or the completion of a task.
    pub open spec fn takes_work(self, next: PoolRun) -> bool {
        ||| self.claims(next) && self.pool.claimed() is Task
        ||| exists|j: int| self.reports(next, j)
        ||| exists|j: int| self.completes(next, j)
    }

    /// One step of some worker that is no report of a failure.
    pub open spec fn sound_step(self, next: PoolRun) -> bool {
        ||| self.claims(next)
        ||| exists|j: int| self.reports(next, j)
        ||| exists|j: int| self.completes(next, j)
    }

    /// Once the walk is done, nothing of the tree is left behind it.
    pub open spec fn nothing_left_when_done(self) -> bool {
        self.pool.phase is Done ==> self.queued.len() == 0 && self.jobs.len() == 0
    }
}

/// Whether `trace` is a run in which no worker reports a failure.
pub open spec fn is_sound_run(trace: Seq<PoolRun>, workers: nat, roots: Seq<Node>) -> bool {
    &&& trace.len() > 0
    &&& trace[0] == PoolRun::start(workers, roots)
    &&& forall|i: int|
        0 <= i < trace.len() - 1 ==> (#[trigger] trace[i]).sound_step(trace[i + 1])
}

/// In a run without a reported failure no state has failed, every state
/// stands in the right relation to the trees, and a state that is done has
/// nothing of the trees left behind it.
pub proof fn lemma_sound_run_state(trace: Seq<PoolRun>, workers: nat, roots: Seq<Node>, i: int)
    requires
        is_sound_run(trace, workers, roots),
        workers > 0,
        roots.len() > 0,
        all_wf(roots),
        all_dirs(roots),
        0 <= i < trace.len(),
    ensures
        trace[i].inv(roots),
        !(trace[i].pool.phase is Failed),
        trace[i].nothing_left_when_done(),
    decreases i,
{
    if i == 0 {
        lemma_start_inv(workers, roots);
    } else {
        lemma_sound_run_state(trace, workers, roots, i - 1);
        let cur = trace[i - 1];
        let next = trace[i];
        assert(cur.sound_step(trace[i - 1 + 1]));
        assert(cur.step(next));
        lemma_step_inv(cur, next, roots);
        if cur.pool.phase is Running {
            if exists|j: int| cur.completes(next, j) {
                let j = choose|j: int| cur.completes(next, j);
                lemma_completion_takes_a_step(cur, next, roots, j);
            }
        } else {
            if cur.pool.queue.len() > 0 {
                assert(cur.pool.queue[0] is None);
            }
        }
    }
}

/// The walk ends. In a run in which no failure is reported, the work left
/// at the start is what the trees ask for: three steps for every directory
/// and one for every file below the roots, and two for every root. Every
/// claim of a task, every report and every completion takes exactly one step
/// of it, and no other step changes it. The walk is done exactly when no
/// work is left; until then a task is queued or a worker has a step to take.
/// So no worker can go on taking steps for ever, and none waits for ever.
pub proof fn lemma_walk_ends(trace: Seq<PoolRun>, workers: nat, roots: Seq<Node>, i: int)
    requires
        is_sound_run(trace, workers, roots),
        workers > 0,
        roots.len() > 0,
        all_wf(roots),
        all_dirs(roots),
        0 <= i < trace.len(),
    ensures
        is_run(trace, workers, roots),
        trace[0].work_left() == steps_in(roots) - roots.len(),
        trace[i].pool.phase is Done <==> trace[i].work_left() == 0,
        trace[i].pool.phase is Running <==> trace[i].work_left() > 0,
        trace[i].pool.phase is Running ==> trace[i].pool.claimed() is Task || trace[i].jobs.len()
            > 0,
        i + 1 < trace.len() ==> trace[i + 1].work_left() == trace[i].work_left() - if trace[i].takes_work(
            trace[i + 1],
        ) {
            1int
        } else {
            0int
        },
{
    assert(is_run(trace, workers, roots)) by {
        assert forall|k: int| 0 <= k < trace.len() - 1 implies (#[trigger] trace[k]).step(
            trace[k + 1],
        ) by {
            assert(trace[k].sound_step(trace[k + 1]));
        }
    }
    lemma_steps_at_least(roots);
    assert(jobs_steps(Seq::<Seq<Node>>::empty()) == 0);
    lemma_sound_run_state(trace, workers, roots, i);
    let cur = trace[i];
    assert(crate::tree::forest(Seq::<Node>::empty()) =~= Seq::empty());
    assert(crate::tree::dir_nodes(Seq::<Node>::empty()) =~= Seq::empty()) by {
        broadcast use vstd::seq_lib::group_filter_ensures;

    }
    assert(steps_in(Seq::<Node>::empty()) == 0);
    if cur.pool.phase is Running {
        lemma_running_has_work(cur, roots);
        lemma_running_can_progress(trace, workers, roots, i);
    } else {
        assert(cur.queued =~= Seq::empty());
        assert(cur.jobs =~= Seq::empty());
    }
    if i + 1 < trace.len() {
        let next = trace[i + 1];
        assert(cur.sound_step(next));
        if cur.pool.phase is Running {
            if cur.claims(next) && cur.pool.claimed() is Task {
                lemma_claim_takes_a_step(cur, next, roots);
            } else if exists|j: int| cur.reports(next, j) {
                let j = choose|j: int| cur.reports(next, j);
                lemma_report_takes_a_step(cur, next, roots, j);
            } else if exists|j: int| cur.completes(next, j) {
                let j = choose|j: int| cur.completes(next, j);
                lemma_completion_takes_a_step(cur, next, roots, j);
            } else {
                assert(cur.claims(next));
            }
        } else {
            if cur.pool.queue.len() > 0 {
                assert(cur.pool.queue[0] is None);
            }
            assert(!cur.takes_work(next));
            assert(cur.claims(next));
        }
    }
}

} // verus!
