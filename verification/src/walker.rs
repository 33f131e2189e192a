//! The sequential walk: one thread, depth first, with an explicit stack.
//!
//! The walker is told what the caller has read, as the worker pool is. It
//! hands out the directory on top of its stack; the caller lists it and
//! reports every entry of the listing before it asks for the next directory.

use crate::digest::digest_of;
use crate::entry::{entry_views, Entry, EntryView};
use crate::error::ScanError;
use crate::index::{lemma_insert_holders, lemma_insert_wf, DuplicateIndex, IndexView};
use crate::pool::all_directories;
use crate::tree::{
    all_dirs, all_wf, dir_nodes, entries_of, forest, hits, holders_in, lemma_dir_nodes,
    lemma_filter_forest_len, lemma_forest_add, lemma_forest_push, lemma_hits_add, lemma_hits_one,
    lemma_holders_add, lemma_holders_one, lemma_holders_push, lemma_holders_split, Node,
};
use vstd::multiset::Multiset;
use vstd::prelude::*;

verus! {

/// The mathematical value of a [`SequentialWalker`]. The top of the stack is
/// its last element.
pub struct WalkerView {
    pub stack: Seq<EntryView>,
    pub failed: bool,
    pub index: IndexView,
}

impl WalkerView {
    /// Only directories are stacked, and nothing is stacked after a failure.
    pub open spec fn wf(self) -> bool {
        &&& self.index.wf()
        &&& all_directories(self.stack)
        &&& self.failed ==> self.stack.len() == 0
    }

    /// The walker before the walk: every root is stacked.
    pub open spec fn seeded(roots: Seq<EntryView>) -> WalkerView {
        WalkerView { stack: roots, failed: false, index: IndexView::empty() }
    }

    /// The directory that is handed out next, if any is left.
    pub open spec fn top(self) -> Option<EntryView> {
        if self.stack.len() == 0 {
            None
        } else {
            Some(self.stack.last())
        }
    }

    /// The walker after it has handed out the top of its stack.
    pub open spec fn popped(self) -> WalkerView {
        if self.stack.len() == 0 {
            self
        } else {
            WalkerView { stack: self.stack.drop_last(), ..self }
        }
    }

    /// The walker after it was told of the subdirectory `dir`.
    pub open spec fn discover(self, dir: EntryView) -> WalkerView {
        if self.failed {
            self
        } else {
            WalkerView { stack: self.stack.push(dir), ..self }
        }
    }

    /// The walker after it was told that `file` has the hash `digest`.
    pub open spec fn record(self, digest: u128, file: EntryView) -> WalkerView {
        if self.failed {
            self
        } else {
            WalkerView { index: self.index.insert(digest, file), ..self }
        }
    }

    /// The walker after it was told of a failure.
    pub open spec fn abort(self) -> WalkerView {
        WalkerView { stack: Seq::empty(), failed: true, ..self }
    }

    /// What the walk hands to its caller.
    pub open spec fn outcome(self) -> Result<IndexView, ScanError> {
        if self.failed {
            Err(ScanError::IoFailure)
        } else {
            Ok(self.index)
        }
    }
}

/// The state of a sequential walk.
pub struct SequentialWalker {
    stack: Vec<Entry>,
    failed: bool,
    index: DuplicateIndex,
}

impl View for SequentialWalker {
    type V = WalkerView;

    closed spec fn view(&self) -> WalkerView {
        WalkerView { stack: entry_views(self.stack@), failed: self.failed, index: self.index@ }
    }
}

impl SequentialWalker {
    /// The walker is consistent: its index is, and its value is well-formed.
    pub closed spec fn wf(&self) -> bool {
        &&& self.index.wf()
        &&& self@.wf()
    }

    /// A consistent walker has a well-formed value.
    pub proof fn lemma_view_wf(&self)
        requires
            self.wf(),
        ensures
            self@.wf(),
    {
    }

    /// Sets up a walk of `roots`. The input is refused if there is no root
    /// or a root that is not a directory.
    pub fn new(roots: &Vec<Entry>) -> (made: Result<SequentialWalker, ScanError>)
        ensures
            made is Ok <==> roots@.len() > 0 && all_directories(entry_views(roots@)),
            made matches Ok(walker) ==> walker.wf() && walker@ == WalkerView::seeded(
                entry_views(roots@),
            ),
            made matches Err(e) ==> e == ScanError::InvalidInput,
    {
        let ghost dirs = entry_views(roots@);
        if roots.len() == 0 {
            return Err(ScanError::InvalidInput);
        }
        let mut stack: Vec<Entry> = Vec::new();
        let mut i: usize = 0;
        while i < roots.len()
            invariant
                i <= roots@.len(),
                dirs == entry_views(roots@),
                all_directories(dirs.take(i as int)),
                entry_views(stack@) == dirs.take(i as int),
            decreases roots@.len() - i,
        {
            if !roots[i].is_dir {
                assert(!dirs[i as int].is_dir);
                return Err(ScanError::InvalidInput);
            }
            let ghost before = stack@;
            stack.push(roots[i].clone());
            proof {
                assert(dirs.take(i + 1) =~= dirs.take(i as int).push(dirs[i as int]));
                assert(entry_views(stack@) =~= entry_views(before).push(dirs[i as int]));
            }
            i = i + 1;
        }
        assert(dirs.take(i as int) =~= dirs);
        Ok(SequentialWalker { stack, failed: false, index: DuplicateIndex::new() })
    }

    /// The number of directories that wait to be listed.
    pub fn pending(&self) -> (pending: usize)
        ensures
            pending == self@.stack.len(),
    {
        self.stack.len()
    }

    /// Whether a failure was reported.
    pub fn has_failed(&self) -> (failed: bool)
        ensures
            failed == self@.failed,
    {
        self.failed
    }

    /// Hands out the directory to list next: the one stacked last. `None`
    /// says that the walk has nothing left to list.
    pub fn next_dir(&mut self) -> (dir: Option<Entry>)
        requires
            old(self).wf(),
        ensures
            final(self).wf(),
            final(self)@ == old(self)@.popped(),
            dir is Some <==> old(self)@.top() is Some,
            dir matches Some(d) ==> Some(d@) == old(self)@.top(),
    {
        let ghost before = self.stack@;
        let dir = self.stack.pop();
        proof {
            if before.len() > 0 {
                assert(entry_views(self.stack@) =~= entry_views(before).drop_last());
            }
        }
        dir
    }

    /// Stacks the subdirectory `dir` that the caller found in the listing.
    /// Ignored after a failure.
    pub fn discover(&mut self, dir: Entry)
        requires
            old(self).wf(),
            dir@.is_dir,
        ensures
            final(self).wf(),
            final(self)@ == old(self)@.discover(dir@),
    {
        if !self.failed {
            let ghost before = self.stack@;
            let ghost added = dir@;
            self.stack.push(dir);
            assert(entry_views(self.stack@) =~= entry_views(before).push(added));
        }
    }

    /// Records that `file`, found in the listing, has the content hash
    /// `digest`. Ignored after a failure.
    pub fn record(&mut self, digest: u128, file: Entry)
        requires
            old(self).wf(),
            !file@.is_dir,
        ensures
            final(self).wf(),
            final(self)@ == old(self)@.record(digest, file@),
    {
        if !self.failed {
            proof {
                lemma_insert_wf(self.index@, digest, file@);
            }
            self.index.insert(digest, file);
        }
    }

    /// Abandons the walk after a failure: nothing is handed out any more.
    pub fn abort(&mut self)
        requires
            old(self).wf(),
        ensures
            final(self).wf(),
            final(self)@ == old(self)@.abort(),
    {
        self.stack.clear();
        self.failed = true;
        assert(entry_views(self.stack@) =~= Seq::empty());
    }

    /// Ends the walk and hands over its result: the index, or the failure
    /// of the walk if one was reported.
    pub fn finish(self) -> (result: Result<DuplicateIndex, ScanError>)
        requires
            self.wf(),
            self@.stack.len() == 0,
        ensures
            result is Ok <==> !self@.failed,
            result matches Ok(index) ==> index.wf() && index@ == self@.index,
            result matches Err(e) ==> e == ScanError::IoFailure,
    {
        if self.failed {
            Err(ScanError::IoFailure)
        } else {
            Ok(self.index)
        }
    }
}

/// The walker after the caller has reported the whole of `listing`, entry
/// by entry: subdirectories are stacked, files are recorded under the hash
/// of their content.
pub open spec fn report_all(state: WalkerView, listing: Seq<Node>) -> WalkerView
    decreases listing.len(),
{
    if listing.len() == 0 {
        state
    } else {
        let before = report_all(state, listing.drop_last());
        match listing.last() {
            Node::Dir { entry, .. } => before.discover(entry),
            Node::File { entry, content } => before.record(digest_of(content), entry),
        }
    }
}

/// The walker at the end of a walk that starts at `state`, with the
/// directories `pending` standing behind its stack, if every listing is the
/// one that the tree holds.
pub open spec fn walk_all(state: WalkerView, pending: Seq<Node>) -> WalkerView
    decreases forest(pending).len(),
{
    if pending.len() == 0 {
        state
    } else {
        proof {
            lemma_walk_shrinks(pending);
        }
        walk_all(
            report_all(state.popped(), pending.last().children()),
            pending.drop_last() + dir_nodes(pending.last().children()),
        )
    }
}

/// Listing the directory on top of the stack leaves a smaller forest to walk.
pub proof fn lemma_walk_shrinks(pending: Seq<Node>)
    requires
        pending.len() > 0,
    ensures
        forest(pending.drop_last() + dir_nodes(pending.last().children())).len() < forest(
            pending,
        ).len(),
{
    let top = pending.last();
    let found = top.children();
    assert(pending.drop_last().push(top) =~= pending);
    lemma_forest_push(pending.drop_last(), top);
    lemma_forest_add(pending.drop_last(), dir_nodes(found));
    lemma_filter_forest_len(found);
    assert(top.below() == forest(found));
}

/// Reporting a listing stacks its directories and records its files, each
/// under the hash of its content.
pub proof fn lemma_report_all(state: WalkerView, listing: Seq<Node>)
    requires
        state.wf(),
        !state.failed,
        all_wf(listing),
    ensures
        report_all(state, listing).wf(),
        !report_all(state, listing).failed,
        report_all(state, listing).stack == state.stack + entries_of(dir_nodes(listing)),
        forall|h: u128| #[trigger]
            report_all(state, listing).index.holders(h) == state.index.holders(h).add(
                hits(listing, h),
            ),
    decreases listing.len(),
{
    let keep = |n: Node| n is Dir;
    let after = report_all(state, listing);
    if listing.len() == 0 {
        broadcast use vstd::seq_lib::group_filter_ensures;

        assert(dir_nodes(listing) =~= Seq::empty());
        assert(after.stack =~= state.stack + entries_of(dir_nodes(listing)));
        assert forall|h: u128| #[trigger]
            after.index.holders(h) == state.index.holders(h).add(hits(listing, h)) by {
            assert(listing.filter(|n: Node| n.is_hit(h)) =~= Seq::empty());
            assert(entries_of(listing.filter(|n: Node| n.is_hit(h))) =~= Seq::empty());
            assert(hits(listing, h) =~= Multiset::empty()) by {
                broadcast use vstd::seq_lib::group_to_multiset_ensures;

            }
            assert(state.index.holders(h).add(Multiset::empty()) =~= state.index.holders(h));
        }
    } else {
        let front = listing.drop_last();
        let last = listing.last();
        let before = report_all(state, front);
        assert(front.push(last) =~= listing);
        assert(front + seq![last] =~= listing);
        assert(all_wf(front));
        assert(last.wf());
        lemma_report_all(state, front);
        front.lemma_filter_push(last, keep);
        match last {
            Node::Dir { entry, .. } => {
                assert(entries_of(dir_nodes(front).push(last)) =~= entries_of(dir_nodes(front)).push(
                    entry,
                ));
                assert(after.stack =~= state.stack + entries_of(dir_nodes(listing)));
            },
            Node::File { entry, content } => {
                lemma_insert_wf(before.index, digest_of(content), entry);
                assert(after.stack =~= state.stack + entries_of(dir_nodes(listing)));
            },
        }
        assert forall|h: u128| #[trigger]
            after.index.holders(h) == state.index.holders(h).add(hits(listing, h)) by {
            lemma_hits_add(front, seq![last], h);
            lemma_hits_one(last, h);
            assert(before.index.holders(h) == state.index.holders(h).add(hits(front, h)));
            match last {
                Node::Dir { entry, .. } => {
                    assert(after.index.holders(h) =~= state.index.holders(h).add(
                        hits(listing, h),
                    ));
                },
                Node::File { entry, content } => {
                    lemma_insert_holders(before.index, digest_of(content), entry, h);
                    assert(after.index.holders(h) =~= state.index.holders(h).add(
                        hits(listing, h),
                    ));
                },
            }
        }
    }
}

/// A sequential walk indexes the tree: at its end nothing is stacked, and
/// the index holds, beside what it held before, every file of the trees
/// behind the stack under the hash of its content, as often as it occurs.
pub proof fn lemma_walk_indexes_tree(state: WalkerView, pending: Seq<Node>)
    requires
        state.wf(),
        !state.failed,
        all_wf(pending),
        all_dirs(pending),
        state.stack == entries_of(pending),
    ensures
        walk_all(state, pending).wf(),
        walk_all(state, pending).stack.len() == 0,
        walk_all(state, pending).outcome() == Ok::<IndexView, ScanError>(
            walk_all(state, pending).index,
        ),
        forall|h: u128| #[trigger]
            walk_all(state, pending).index.holders(h) == state.index.holders(h).add(
                holders_in(pending, h),
            ),
    decreases forest(pending).len(),
{
    if pending.len() == 0 {
        assert forall|h: u128| #[trigger]
            state.index.holders(h) == state.index.holders(h).add(holders_in(pending, h)) by {
            assert(pending =~= Seq::empty());
            crate::tree::lemma_holders_none(h);
            assert(state.index.holders(h).add(Multiset::empty()) =~= state.index.holders(h));
        }
    } else {
        let top = pending.last();
        let rest = pending.drop_last();
        let found = top.children();
        assert(rest.push(top) =~= pending);
        assert(top.wf() && top is Dir);
        assert(all_wf(found));
        let listed = report_all(state.popped(), found);
        let ahead = rest + dir_nodes(found);
        lemma_walk_shrinks(pending);
        lemma_report_all(state.popped(), found);
        lemma_dir_nodes(found);
        assert(state.popped().stack =~= entries_of(rest));
        assert(listed.stack =~= entries_of(ahead));
        assert(all_wf(ahead));
        assert(all_dirs(ahead));
        lemma_walk_indexes_tree(listed, ahead);
        assert forall|h: u128| #[trigger]
            walk_all(state, pending).index.holders(h) == state.index.holders(h).add(
                holders_in(pending, h),
            ) by {
            lemma_holders_push(rest, top, h);
            lemma_holders_one(top, h);
            lemma_holders_split(found, h);
            lemma_holders_add(rest, dir_nodes(found), h);
            assert(listed.index.holders(h) == state.index.holders(h).add(hits(found, h)));
            assert(walk_all(listed, ahead).index.holders(h) == listed.index.holders(h).add(
                holders_in(ahead, h),
            ));
            assert(state.index.holders(h).add(hits(found, h)).add(
                holders_in(rest, h).add(holders_in(dir_nodes(found), h)),
            ) =~= state.index.holders(h).add(
                holders_in(rest, h).add(hits(found, h).add(holders_in(dir_nodes(found), h))),
            ));
        }
    }
}

/// Failure is final for the sequential walk too: after a failure was
/// reported, nothing is handed out, and whatever is still reported, the walk
/// hands its caller that failure and no index.
pub proof fn lemma_failure_propagates(state: WalkerView, listing: Seq<Node>)
    ensures
        state.abort().top() is None,
        report_all(state.abort(), listing).outcome() == Err::<IndexView, ScanError>(
            ScanError::IoFailure,
        ),
    decreases listing.len(),
{
    if listing.len() > 0 {
        lemma_failure_propagates(state, listing.drop_last());
    }
}

} // verus!
