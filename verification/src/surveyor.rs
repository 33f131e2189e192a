//! The surveyor: a bounded probe of a tree that decides whether a parallel
//! walk is worth its cost.
//!
//! The probe goes through the tree breadth first and counts every entry it is
//! shown. It stops as soon as the count reaches the threshold. What it has
//! seen is thrown away; the walk that follows starts from the root again.

use crate::entry::{entry_views, Entry, EntryView};
use crate::error::ScanError;
use crate::tree::{
    all_dirs, all_wf, dir_nodes, entries_of, entries_under, forest, lemma_dir_nodes,
    lemma_filter_forest_len, lemma_forest_add, lemma_forest_first, Node,
};
use std::collections::VecDeque;
use vstd::prelude::*;

verus! {

/// The number of entries from which on a tree is walked by the worker pool.
pub const PARALLELISM_THRESHOLD: usize = 100;

/// Whether a tree in which `count` entries were seen is walked in parallel.
pub fn use_parallelism(count: usize) -> (parallel: bool)
    ensures
        parallel == (count >= PARALLELISM_THRESHOLD),
{
    count >= PARALLELISM_THRESHOLD
}

/// Whether roots whose probes have decided `decisions` are walked by the
/// worker pool: they are, if the probe of one of them has said so.
pub fn walk_in_parallel(decisions: &Vec<bool>) -> (parallel: bool)
    ensures
        parallel == decisions@.contains(true),
{
    let mut i: usize = 0;
    while i < decisions.len()
        invariant
            i <= decisions@.len(),
            forall|k: int| 0 <= k < i ==> !decisions@[k],
        decreases decisions@.len() - i,
    {
        if decisions[i] {
            return true;
        }
        i = i + 1;
    }
    false
}

/// What the surveyor asks for next.
#[derive(Debug)]
pub enum Survey {
    /// The probe has ended: `true` for a parallel walk, `false` for a
    /// sequential one.
    Decided(bool),
    /// The listing of this directory is wanted.
    List(Entry),
}

/// The mathematical value of a [`Survey`].
pub enum SurveyView {
    Decided(bool),
    List(EntryView),
}

impl View for Survey {
    type V = SurveyView;

    open spec fn view(&self) -> SurveyView {
        match self {
            Survey::Decided(parallel) => SurveyView::Decided(*parallel),
            Survey::List(dir) => SurveyView::List(dir@),
        }
    }
}

/// The mathematical value of a [`Surveyor`]: the entries counted so far and
/// the entries that wait to be looked at, oldest first.
pub struct SurveyorView {
    pub count: nat,
    pub queue: Seq<EntryView>,
}

/// The directories among `entries`, in order.
pub open spec fn directories(entries: Seq<EntryView>) -> Seq<EntryView> {
    entries.filter(|e: EntryView| e.is_dir)
}

/// A count that stops at the largest number the machine can hold.
pub open spec fn capped(count: nat) -> nat {
    if count > usize::MAX {
        usize::MAX as nat
    } else {
        count
    }
}

impl SurveyorView {
    /// The surveyor before it has seen anything of the tree under `root`.
    pub open spec fn start(root: EntryView) -> SurveyorView {
        SurveyorView { count: 0, queue: seq![root] }
    }

    /// The surveyor after it was shown `listing`: every entry is counted, and
    /// the directories among them wait to be listed in turn.
    pub open spec fn absorb(self, listing: Seq<EntryView>) -> SurveyorView {
        SurveyorView {
            count: capped(self.count + listing.len()),
            queue: self.queue + directories(listing),
        }
    }

    /// What the surveyor asks for next. The count is looked at first: once it
    /// has reached the threshold the answer is `true`, whatever still waits.
    /// With nothing waiting the answer is `false`. Otherwise the listing of
    /// the directory that has waited longest is asked for.
    pub open spec fn step(self) -> SurveyView {
        if self.count >= PARALLELISM_THRESHOLD {
            SurveyView::Decided(true)
        } else if self.queue.len() == 0 {
            SurveyView::Decided(false)
        } else {
            SurveyView::List(self.queue[0])
        }
    }

    /// The surveyor after it has asked for its next step: the directory
    /// whose listing it has asked for waits no longer.
    pub open spec fn settle(self) -> SurveyorView {
        if self.count >= PARALLELISM_THRESHOLD || self.queue.len() == 0 {
            self
        } else {
            SurveyorView { queue: self.queue.drop_first(), ..self }
        }
    }

    /// The surveyor as an event finds it: shown `listing` if there is one.
    pub open spec fn shown(self, listing: Option<Seq<EntryView>>) -> SurveyorView {
        match listing {
            Some(entries) => self.absorb(entries),
            None => self,
        }
    }
}

/// The state of a probe.
pub struct Surveyor {
    count: usize,
    queue: VecDeque<Entry>,
}

impl View for Surveyor {
    type V = SurveyorView;

    closed spec fn view(&self) -> SurveyorView {
        SurveyorView { count: self.count as nat, queue: entry_views(self.queue@) }
    }
}

impl Surveyor {
    /// A probe of the tree under `root` that has not looked at anything yet.
    /// A root that is no directory is refused: only a directory is probed.
    pub fn new(root: Entry) -> (made: Result<Surveyor, ScanError>)
        ensures
            made is Ok <==> root@.is_dir,
            made matches Ok(surveyor) ==> surveyor@ == SurveyorView::start(root@),
            made matches Err(e) ==> e == ScanError::InvalidInput,
    {
        if !root.is_dir {
            return Err(ScanError::InvalidInput);
        }
        let ghost first = root@;
        let mut queue: VecDeque<Entry> = VecDeque::new();
        queue.push_back(root);
        assert(entry_views(queue@) =~= seq![first]);
        Ok(Surveyor { count: 0, queue })
    }

    /// The number of entries counted so far.
    pub fn count(&self) -> (count: usize)
        ensures
            count == self@.count,
    {
        self.count
    }

    /// Takes the probe one step further. `listing` is the listing of the
    /// directory that the step before asked for, and `None` on the first
    /// call. The result says what the probe wants next: the listing of one
    /// more directory, or nothing, because it has decided.
    pub fn scan_dirs(&mut self, listing: Option<Vec<Entry>>) -> (next: Survey)
        ensures
            next@ == old(self)@.shown(listing_view(listing)).step(),
            final(self)@ == old(self)@.shown(listing_view(listing)).settle(),
    {
        match listing {
            Some(entries) => {
                self.absorb(entries);
            },
            None => {},
        }
        if use_parallelism(self.count) {
            return Survey::Decided(true);
        }
        let ghost before = self.queue@;
        match self.queue.pop_front() {
            None => Survey::Decided(false),
            Some(head) => {
                assert(entry_views(self.queue@) =~= entry_views(before).drop_first());
                assert(entry_views(before)[0] == head@);
                Survey::List(head)
            },
        }
    }

    fn absorb(&mut self, listing: Vec<Entry>)
        ensures
            final(self)@ == old(self)@.absorb(entry_views(listing@)),
    {
        let ghost shown = entry_views(listing@);
        let ghost keep = |e: EntryView| e.is_dir;
        self.count = self.count.saturating_add(listing.len());
        let ghost counted = self.count;
        let ghost waiting = entry_views(self.queue@);
        let mut i: usize = 0;
        assert(shown.take(0).filter(keep) =~= Seq::empty()) by {
            broadcast use vstd::seq_lib::group_filter_ensures;

        }
        while i < listing.len()
            invariant
                i <= listing@.len(),
                shown == entry_views(listing@),
                keep == |e: EntryView| e.is_dir,
                self.count == counted,
                entry_views(self.queue@) == waiting + shown.take(i as int).filter(keep),
            decreases listing@.len() - i,
        {
            let ghost before = self.queue@;
            proof {
                assert(shown.take(i + 1) =~= shown.take(i as int).push(shown[i as int]));
                shown.take(i as int).lemma_filter_push(shown[i as int], keep);
            }
            if listing[i].is_dir {
                self.queue.push_back(listing[i].clone());
                assert(entry_views(self.queue@) =~= entry_views(before).push(shown[i as int]));
            }
            i = i + 1;
        }
        assert(shown.take(i as int) =~= shown);
    }
}

/// The value of a listing that may be absent.
pub open spec fn listing_view(listing: Option<Vec<Entry>>) -> Option<Seq<EntryView>> {
    match listing {
        Some(entries) => Some(entry_views(entries@)),
        None => None,
    }
}

/// The answer of a probe that stands at `state` while the directories
/// `waiting` stand behind its queue, if every listing it asks for is the one
/// that the tree holds.
pub open spec fn probe(state: SurveyorView, waiting: Seq<Node>) -> bool
    decreases forest(waiting).len(),
{
    match state.step() {
        SurveyView::Decided(parallel) => parallel,
        SurveyView::List(_) => if waiting.len() == 0 {
            false
        } else {
            proof {
                lemma_step_shrinks(waiting);
            }
            probe(
                state.settle().absorb(waiting[0].listing()),
                waiting.drop_first() + dir_nodes(waiting[0].children()),
            )
        },
    }
}

/// Listing the first of the waiting directories leaves a smaller forest to
/// go through.
pub proof fn lemma_step_shrinks(waiting: Seq<Node>)
    requires
        waiting.len() > 0,
    ensures
        forest(waiting.drop_first() + dir_nodes(waiting[0].children())).len() < forest(
            waiting,
        ).len(),
{
    let head = waiting[0];
    let found = head.children();
    lemma_forest_first(waiting);
    lemma_forest_add(waiting.drop_first(), dir_nodes(found));
    lemma_filter_forest_len(found);
    assert(head.below() == forest(found));
}

/// In a well-formed tree the directories of a listing are the entries of the
/// directories listed.
pub proof fn lemma_directories_of_listing(nodes: Seq<Node>)
    requires
        all_wf(nodes),
    ensures
        entries_of(dir_nodes(nodes)) == directories(entries_of(nodes)),
    decreases nodes.len(),
{
    let keep_node = |n: Node| n is Dir;
    let keep_entry = |e: EntryView| e.is_dir;
    if nodes.len() == 0 {
        broadcast use vstd::seq_lib::group_filter_ensures;

        assert(dir_nodes(nodes) =~= Seq::empty());
        assert(entries_of(nodes) =~= Seq::empty());
        assert(directories(entries_of(nodes)) =~= Seq::empty());
        assert(entries_of(dir_nodes(nodes)) =~= Seq::empty());
    } else {
        let front = nodes.drop_last();
        let last = nodes.last();
        assert(front.push(last) =~= nodes);
        assert(all_wf(front));
        assert(last.wf());
        lemma_directories_of_listing(front);
        front.lemma_filter_push(last, keep_node);
        entries_of(front).lemma_filter_push(last.entry(), keep_entry);
        assert(entries_of(nodes) =~= entries_of(front).push(last.entry()));
        if last is Dir {
            assert(entries_of(dir_nodes(front).push(last)) =~= entries_of(dir_nodes(front)).push(
                last.entry(),
            ));
        }
    }
}

/// A probe that has truly seen `seen` entries, with the directories
/// `waiting` still to be listed, answers `true` exactly if the entries seen
/// and the entries below the waiting directories together reach the
/// threshold.
pub proof fn lemma_probe_counts(state: SurveyorView, waiting: Seq<Node>, seen: nat)
    requires
        all_wf(waiting),
        all_dirs(waiting),
        state.queue == entries_of(waiting),
        state.count == capped(seen),
    ensures
        probe(state, waiting) == (seen + entries_under(waiting) >= PARALLELISM_THRESHOLD),
    decreases forest(waiting).len(),
{
    if state.count >= PARALLELISM_THRESHOLD {
    } else if waiting.len() == 0 {
        assert(forest(waiting) =~= Seq::empty());
    } else {
        let head = waiting[0];
        let rest = waiting.drop_first();
        let found = head.children();
        assert(head.wf());
        assert(head is Dir);
        assert(state.queue[0] == head.entry());
        assert(all_wf(found));
        let next = state.settle().absorb(head.listing());
        let ahead = rest + dir_nodes(found);
        lemma_step_shrinks(waiting);
        lemma_dir_nodes(found);
        lemma_directories_of_listing(found);
        lemma_forest_first(waiting);
        lemma_forest_add(rest, dir_nodes(found));
        crate::tree::lemma_forest_len(rest);
        crate::tree::lemma_forest_len(found);
        crate::tree::lemma_forest_len(dir_nodes(found));
        assert(head.below() == forest(found));
        assert(state.queue.drop_first() =~= entries_of(rest));
        assert(next.queue =~= entries_of(ahead));
        assert(entries_of(found).len() == found.len());
        assert(all_wf(ahead));
        assert(all_dirs(ahead));
        lemma_probe_counts(next, ahead, seen + found.len());
    }
}

/// The surveyor decides by the size of the tree: a probe of the unchanged
/// tree under the directory `root` answers `true` exactly if the tree holds
/// at least as many entries below its root as the threshold says.
pub proof fn lemma_survey_decides_by_size(root: Node)
    requires
        root.wf(),
        root is Dir,
    ensures
        probe(SurveyorView::start(root.entry()), seq![root]) == (root.descendants()
            >= PARALLELISM_THRESHOLD),
{
    let state = SurveyorView::start(root.entry());
    crate::tree::lemma_forest_one(root);
    assert(state.queue =~= entries_of(seq![root]));
    lemma_probe_counts(state, seq![root], 0);
}

} // verus!
