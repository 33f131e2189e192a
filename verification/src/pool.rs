//! The worker pool of the parallel walk, as a state machine.
//!
//! The pool owns the task queue, the counter of outstanding tasks and the
//! duplicate index. Workers run elsewhere; each of them claims a task, lists
//! its directory, reports every entry of the listing and then reports the task
//! as complete. Each method below is one atomic step of that protocol.

use crate::entry::{Entry, EntryView};
use crate::error::ScanError;
use crate::index::{DuplicateIndex, IndexView};
use std::collections::VecDeque;
use vstd::prelude::*;

verus! {

/// Where a walk stands.
#[derive(Debug, Clone, Copy, PartialEq, Eq, Structural)]
pub enum Phase {
    /// Tasks are queued or being worked on.
    Running,
    /// Every task has completed and the workers were told to stop.
    Done,
    /// A worker reported a failure; the walk was abandoned.
    Failed,
}

/// What a worker gets when it asks the pool for work.
#[derive(Debug)]
pub enum Claim {
    /// A directory to list.
    Task(Entry),
    /// The stop sentinel: the worker exits.
    Stop,
    /// Nothing is queued, but tasks are still being worked on: ask again
    /// once the queue has changed.
    Wait,
}

/// The mathematical value of a [`Claim`].
pub enum ClaimView {
    Task(EntryView),
    Stop,
    Wait,
}

impl View for Claim {
    type V = ClaimView;

    open spec fn view(&self) -> ClaimView {
        match self {
            Claim::Task(dir) => ClaimView::Task(dir@),
            Claim::Stop => ClaimView::Stop,
            Claim::Wait => ClaimView::Wait,
        }
    }
}

/// The mathematical value of a [`WorkerPool`]. In `queue`, `Some` is a task
/// and `None` a stop sentinel.
pub struct PoolView {
    pub workers: nat,
    pub queue: Seq<Option<EntryView>>,
    pub outstanding: nat,
    pub in_flight: nat,
    pub stopped: nat,
    pub phase: Phase,
    pub index: IndexView,
}

/// The number of workers for a machine that can run `available` threads at
/// once: one thread is kept free, and there is always at least one worker.
pub open spec fn worker_count_of(available: nat) -> nat {
    if available >= 2 {
        (available - 1) as nat
    } else {
        1
    }
}

/// Sizes the pool for a machine that can run `available` threads at once.
pub fn worker_count(available: usize) -> (workers: usize)
    ensures
        workers == worker_count_of(available as nat),
        workers >= 1,
{
    if available >= 2 {
        available - 1
    } else {
        1
    }
}

/// A queue that holds one task for each of `dirs`, in order.
pub open spec fn tasks_of(dirs: Seq<EntryView>) -> Seq<Option<EntryView>> {
    dirs.map_values(|d: EntryView| Some(d))
}

/// `n` stop sentinels.
pub open spec fn stops(n: nat) -> Seq<Option<EntryView>> {
    Seq::new(n, |i: int| None::<EntryView>)
}

/// Whether every entry of `entries` is a directory.
pub open spec fn all_directories(entries: Seq<EntryView>) -> bool {
    forall|i: int| 0 <= i < entries.len() ==> (#[trigger] entries[i]).is_dir
}

impl PoolView {
    /// The invariant of the termination protocol.
    ///
    /// While the walk runs, the counter equals the tasks queued plus the
    /// tasks claimed and is not zero, and no stop sentinel is queued. Once it
    /// is done, the counter is zero, nothing is queued but stop sentinels, and
    /// the sentinels queued and claimed together are one per worker.
    pub open spec fn wf(self) -> bool {
        &&& self.workers > 0
        &&& self.index.wf()
        &&& self.phase is Running ==> {
            &&& self.outstanding == self.queue.len() + self.in_flight
            &&& self.outstanding > 0
            &&& self.stopped == 0
            &&& forall|i: int|
                0 <= i < self.queue.len() ==> (#[trigger] self.queue[i]) is Some
                    && self.queue[i]->0.is_dir
        }
        &&& self.phase is Done ==> {
            &&& self.outstanding == 0
            &&& self.in_flight == 0
            &&& self.queue.len() + self.stopped == self.workers
            &&& forall|i: int| 0 <= i < self.queue.len() ==> (#[trigger] self.queue[i]) is None
        }
        &&& self.phase is Failed ==> self.queue.len() == 0
    }

    /// The pool before any worker has started: one task per root, counted.
    pub open spec fn seeded(workers: nat, roots: Seq<EntryView>) -> PoolView {
        PoolView {
            workers,
            queue: tasks_of(roots),
            outstanding: roots.len(),
            in_flight: 0,
            stopped: 0,
            phase: Phase::Running,
            index: IndexView::empty(),
        }
    }

    /// What a worker that asks for work is given.
    pub open spec fn claimed(self) -> ClaimView {
        if self.phase is Failed {
            ClaimView::Stop
        } else if self.queue.len() == 0 {
            ClaimView::Wait
        } else {
            match self.queue[0] {
                Some(dir) => ClaimView::Task(dir),
                None => ClaimView::Stop,
            }
        }
    }

    /// The pool after a worker has asked for work.
    pub open spec fn claim(self) -> PoolView {
        if self.phase is Failed || self.queue.len() == 0 {
            self
        } else {
            match self.queue[0] {
                Some(_) => PoolView {
                    queue: self.queue.drop_first(),
                    in_flight: self.in_flight + 1,
                    ..self
                },
                None => PoolView {
                    queue: self.queue.drop_first(),
                    stopped: self.stopped + 1,
                    ..self
                },
            }
        }
    }

    /// The pool after a worker has found the subdirectory `dir`: a task is
    /// created for it and counted.
    pub open spec fn discover(self, dir: EntryView) -> PoolView {
        if self.phase is Running {
            PoolView {
                queue: self.queue.push(Some(dir)),
                outstanding: self.outstanding + 1,
                ..self
            }
        } else {
            self
        }
    }

    /// The pool after a worker has hashed `file`.
    pub open spec fn record(self, digest: u128, file: EntryView) -> PoolView {
        if self.phase is Running {
            PoolView { index: self.index.insert(digest, file), ..self }
        } else {
            self
        }
    }

    /// Whether a completion now is the one that brings the counter to zero.
    pub open spec fn completes_walk(self) -> bool {
        self.phase is Running && self.in_flight > 0 && self.outstanding == 1
    }

    /// The pool after a worker has finished the listing of its task. The
    /// completion that brings the counter from one to zero queues one stop
    /// sentinel per worker.
    pub open spec fn complete(self) -> PoolView {
        if self.completes_walk() {
            PoolView {
                queue: self.queue + stops(self.workers),
                outstanding: 0,
                in_flight: (self.in_flight - 1) as nat,
                phase: Phase::Done,
                ..self
            }
        } else if self.phase is Running && self.in_flight > 0 {
            PoolView {
                outstanding: (self.outstanding - 1) as nat,
                in_flight: (self.in_flight - 1) as nat,
                ..self
            }
        } else {
            self
        }
    }

    /// The pool after a worker has reported a failure.
    pub open spec fn abort(self) -> PoolView {
        if self.phase is Running {
            PoolView { queue: Seq::empty(), phase: Phase::Failed, ..self }
        } else {
            self
        }
    }

    /// What the walk hands to its caller once the workers have gone.
    pub open spec fn outcome(self) -> Result<IndexView, ScanError> {
        if self.phase is Done {
            Ok(self.index)
        } else {
            Err(ScanError::IoFailure)
        }
    }
}

/// The values of what a queue holds, in order.
pub open spec fn queue_view(queue: Seq<Option<Entry>>) -> Seq<Option<EntryView>> {
    queue.map_values(
        |signal: Option<Entry>|
            match signal {
                Some(dir) => Some(dir@),
                None => None,
            },
    )
}

/// The shared state of a parallel walk.
pub struct WorkerPool {
    workers: usize,
    queue: VecDeque<Option<Entry>>,
    outstanding: usize,
    in_flight: usize,
    stopped: usize,
    phase: Phase,
    index: DuplicateIndex,
}

impl View for WorkerPool {
    type V = PoolView;

    closed spec fn view(&self) -> PoolView {
        PoolView {
            workers: self.workers as nat,
            queue: queue_view(self.queue@),
            outstanding: self.outstanding as nat,
            in_flight: self.in_flight as nat,
            stopped: self.stopped as nat,
            phase: self.phase,
            index: self.index@,
        }
    }
}

impl WorkerPool {
    /// The pool is consistent: its parts are, and its value obeys the
    /// invariant of the termination protocol.
    pub closed spec fn wf(&self) -> bool {
        &&& self.index.wf()
        &&& self@.wf()
    }

    /// A consistent pool has a value that obeys the protocol's invariant, and
    /// its counters fit the machine.
    pub proof fn lemma_view_wf(&self)
        requires
            self.wf(),
        ensures
            self@.wf(),
            self@.workers <= usize::MAX,
            self@.outstanding <= usize::MAX,
    {
    }

    /// Sets up a walk of `roots` by `workers` workers: every root becomes a
    /// task and is counted before any worker starts.
    ///
    /// The input is refused if there is no worker, no root, or a root that is
    /// not a directory.
    pub fn new(workers: usize, roots: &Vec<Entry>) -> (made: Result<WorkerPool, ScanError>)
        ensures
            made is Ok <==> workers > 0 && roots@.len() > 0 && all_directories(
                crate::entry::entry_views(roots@),
            ),
            made matches Ok(pool) ==> pool.wf() && pool@ == PoolView::seeded(
                workers as nat,
                crate::entry::entry_views(roots@),
            ),
            made matches Err(e) ==> e == ScanError::InvalidInput,
    {
        let ghost dirs = crate::entry::entry_views(roots@);
        if workers == 0 || roots.len() == 0 {
            return Err(ScanError::InvalidInput);
        }
        let mut queue: VecDeque<Option<Entry>> = VecDeque::new();
        let mut i: usize = 0;
        while i < roots.len()
            invariant
                i <= roots@.len(),
                dirs == crate::entry::entry_views(roots@),
                all_directories(dirs.take(i as int)),
                queue_view(queue@) == tasks_of(dirs.take(i as int)),
            decreases roots@.len() - i,
        {
            if !roots[i].is_dir {
                assert(!dirs[i as int].is_dir);
                return Err(ScanError::InvalidInput);
            }
            let ghost before = queue@;
            queue.push_back(Some(roots[i].clone()));
            proof {
                assert(dirs.take(i + 1) =~= dirs.take(i as int).push(dirs[i as int]));
                assert(queue_view(queue@) =~= queue_view(before).push(Some(dirs[i as int])));
                assert(queue_view(queue@) =~= tasks_of(dirs.take(i + 1)));
            }
            i = i + 1;
        }
        assert(dirs.take(i as int) =~= dirs);
        let pool = WorkerPool {
            workers,
            queue,
            outstanding: roots.len(),
            in_flight: 0,
            stopped: 0,
            phase: Phase::Running,
            index: DuplicateIndex::new(),
        };
        assert(pool@ == PoolView::seeded(workers as nat, dirs));
        Ok(pool)
    }

    /// The number of workers that the pool serves.
    pub fn workers(&self) -> (workers: usize)
        ensures
            workers == self@.workers,
    {
        self.workers
    }

    /// The counter of tasks created and not yet completed.
    pub fn outstanding(&self) -> (outstanding: usize)
        ensures
            outstanding == self@.outstanding,
    {
        self.outstanding
    }

    /// Where the walk stands.
    pub fn phase(&self) -> (phase: Phase)
        ensures
            phase == self@.phase,
    {
        self.phase
    }

    /// Hands the next thing in the queue to a worker: a task, which the
    /// worker then holds, or a stop sentinel. With nothing queued the worker
    /// is told to wait; after a failure every worker is told to stop.
    pub fn claim(&mut self) -> (claim: Claim)
        requires
            old(self).wf(),
        ensures
            final(self).wf(),
            final(self)@ == old(self)@.claim(),
            claim@ == old(self)@.claimed(),
    {
        if self.phase == Phase::Failed {
            return Claim::Stop;
        }
        let ghost before = self.queue@;
        match self.queue.pop_front() {
            None => Claim::Wait,
            Some(Some(dir)) => {
                assert(queue_view(self.queue@) =~= queue_view(before).drop_first());
                assert(queue_view(before)[0] == Some(dir@));
                self.in_flight = self.in_flight + 1;
                Claim::Task(dir)
            },
            Some(None) => {
                assert(queue_view(self.queue@) =~= queue_view(before).drop_first());
                assert(queue_view(before)[0] == None::<EntryView>);
                self.stopped = self.stopped + 1;
                Claim::Stop
            },
        }
    }

    /// Creates a task for the subdirectory `dir` that a worker found in its
    /// listing, and counts it. Ignored once the walk no longer runs.
    pub fn discover(&mut self, dir: Entry)
        requires
            old(self).wf(),
            dir@.is_dir,
            old(self)@.outstanding < usize::MAX,
        ensures
            final(self).wf(),
            final(self)@ == old(self)@.discover(dir@),
    {
        if self.phase == Phase::Running {
            let ghost before = self.queue@;
            let ghost added = dir@;
            self.outstanding = self.outstanding + 1;
            self.queue.push_back(Some(dir));
            assert(queue_view(self.queue@) =~= queue_view(before).push(Some(added)));
        }
    }

    /// Records that `file`, found by a worker in its listing, has the content
    /// hash `digest`. Ignored once the walk no longer runs.
    pub fn record(&mut self, digest: u128, file: Entry)
        requires
            old(self).wf(),
            !file@.is_dir,
        ensures
            final(self).wf(),
            final(self)@ == old(self)@.record(digest, file@),
    {
        if self.phase == Phase::Running {
            proof {
                crate::index::lemma_insert_wf(self.index@, digest, file@);
            }
            self.index.insert(digest, file);
        }
    }

    /// Counts the task of a worker as complete. The completion that brings
    /// the counter to zero queues one stop sentinel per worker; the result is
    /// the number of sentinels queued by this call.
    pub fn complete(&mut self) -> (sentinels: usize)
        requires
            old(self).wf(),
        ensures
            final(self).wf(),
            final(self)@ == old(self)@.complete(),
            sentinels == if old(self)@.completes_walk() {
                old(self)@.workers
            } else {
                0
            },
    {
        if self.phase == Phase::Running && self.in_flight > 0 {
            self.outstanding = self.outstanding - 1;
            self.in_flight = self.in_flight - 1;
            if self.outstanding == 0 {
                let ghost before = self.queue@;
                let ghost entered = *self;
                let mut sent: usize = 0;
                assert(queue_view(self.queue@) =~= queue_view(before) + stops(0));
                while sent < self.workers
                    invariant
                        sent <= self.workers,
                        self.workers == entered.workers,
                        self.outstanding == entered.outstanding,
                        self.in_flight == entered.in_flight,
                        self.stopped == entered.stopped,
                        self.phase == entered.phase,
                        self.index == entered.index,
                        queue_view(self.queue@) == queue_view(before) + stops(sent as nat),
                    decreases self.workers - sent,
                {
                    let ghost so_far = self.queue@;
                    self.queue.push_back(None);
                    sent = sent + 1;
                    assert(queue_view(self.queue@) =~= queue_view(so_far).push(None));
                    assert(queue_view(self.queue@) =~= queue_view(before) + stops(sent as nat));
                }
                self.phase = Phase::Done;
                return self.workers;
            }
        }
        0
    }

    /// Abandons the walk after a failure: the queue is emptied and every
    /// worker that asks for work from now on is told to stop.
    pub fn abort(&mut self)
        requires
            old(self).wf(),
        ensures
            final(self).wf(),
            final(self)@ == old(self)@.abort(),
    {
        if self.phase == Phase::Running {
            self.queue.clear();
            self.phase = Phase::Failed;
            assert(queue_view(self.queue@) =~= Seq::empty());
        }
    }

    /// Ends the walk and hands over its result: the index once every task
    /// has completed, and a failure of the walk otherwise.
    pub fn finish(self) -> (result: Result<DuplicateIndex, ScanError>)
        requires
            self.wf(),
            !(self@.phase is Running),
        ensures
            result is Ok <==> self@.phase is Done,
            result matches Ok(index) ==> index.wf() && index@ == self@.index,
            result matches Err(e) ==> e == ScanError::IoFailure,
    {
        if self.phase == Phase::Done {
            Ok(self.index)
        } else {
            Err(ScanError::IoFailure)
        }
    }
}

} // verus!
