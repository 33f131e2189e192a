//! The duplicate index: files grouped by the hash of their content.

use crate::entry::{entry_views, Entry, EntryView};
use std::collections::HashMap;
use vstd::multiset::Multiset;
use vstd::prelude::*;

verus! {

broadcast use vstd::std_specs::hash::group_hash_axioms;

/// The mathematical value of a [`DuplicateIndex`]: for every hash seen so far
/// the files that produced it, in the order in which they were inserted, and
/// the hashes themselves in the order in which each was first seen.
pub struct IndexView {
    pub order: Seq<u128>,
    pub buckets: Map<u128, Seq<EntryView>>,
}

/// The mathematical value of a [`DuplicateGroup`].
pub struct GroupView {
    pub digest: u128,
    pub entries: Seq<EntryView>,
}

impl IndexView {
    /// Every hash is listed once, and every hash that is listed has a file.
    pub open spec fn wf(self) -> bool {
        &&& self.order.no_duplicates()
        &&& forall|h: u128| self.buckets.contains_key(h) <==> self.order.contains(h)
        &&& forall|h: u128| self.buckets.contains_key(h) ==> self.buckets[h].len() > 0
    }

    /// The index that holds nothing.
    pub open spec fn empty() -> IndexView {
        IndexView { order: Seq::empty(), buckets: Map::empty() }
    }

    /// The files recorded under `digest`, oldest first; none if it was never seen.
    pub open spec fn bucket(self, digest: u128) -> Seq<EntryView> {
        if self.buckets.contains_key(digest) {
            self.buckets[digest]
        } else {
            Seq::empty()
        }
    }

    /// The index after `entry` was recorded under `digest`: the entry goes to
    /// the end of that hash's bucket, and nothing else moves.
    pub open spec fn insert(self, digest: u128, entry: EntryView) -> IndexView {
        IndexView {
            order: if self.buckets.contains_key(digest) {
                self.order
            } else {
                self.order.push(digest)
            },
            buckets: self.buckets.insert(digest, self.bucket(digest).push(entry)),
        }
    }

    /// The files recorded under `digest`, without their order.
    pub open spec fn holders(self, digest: u128) -> Multiset<EntryView> {
        self.bucket(digest).to_multiset()
    }

    /// Whether at least two files share `digest`.
    pub open spec fn is_duplicate(self, digest: u128) -> bool {
        self.bucket(digest).len() >= 2
    }

    /// The group that the files under `digest` form.
    pub open spec fn group(self, digest: u128) -> GroupView {
        GroupView { digest, entries: self.bucket(digest) }
    }

    /// The duplicate groups: one for each hash that two or more files share,
    /// in the order in which the hashes were first seen.
    pub open spec fn groups(self) -> Seq<GroupView> {
        self.order.filter(|h: u128| self.is_duplicate(h)).map_values(|h: u128| self.group(h))
    }

    /// Two indexes hold the same files under the same hashes, whatever the
    /// order in which they arrived.
    pub open spec fn same_content(self, other: IndexView) -> bool {
        forall|h: u128| self.holders(h) == other.holders(h)
    }
}

/// Recording a file keeps the value of an index well-formed.
pub proof fn lemma_insert_wf(index: IndexView, digest: u128, entry: EntryView)
    requires
        index.wf(),
    ensures
        index.insert(digest, entry).wf(),
{
    let after = index.insert(digest, entry);
    if index.buckets.contains_key(digest) {
        assert(after.order == index.order);
        assert forall|h: u128| after.buckets.contains_key(h) <==> after.order.contains(h) by {}
    } else {
        assert(!index.order.contains(digest));
        assert(after.order.last() == digest);
        assert forall|i: int, j: int|
            0 <= i < after.order.len() && 0 <= j < after.order.len() && i != j implies after.order[i]
            != after.order[j] by {
            if i < index.order.len() {
                assert(index.order.contains(index.order[i]));
            }
            if j < index.order.len() {
                assert(index.order.contains(index.order[j]));
            }
        }
        assert forall|h: u128| after.buckets.contains_key(h) <==> after.order.contains(h) by {
            if h != digest && index.order.contains(h) {
                let i = choose|i: int| 0 <= i < index.order.len() && index.order[i] == h;
                assert(after.order[i] == h);
            }
            if after.order.contains(h) && h != digest {
                let i = choose|i: int| 0 <= i < after.order.len() && after.order[i] == h;
                assert(index.order[i] == h);
            }
        }
    }
    assert forall|h: u128| after.buckets.contains_key(h) implies after.buckets[h].len() > 0 by {}
}

/// Recording a file adds it to the holders of its hash and to no others.
pub proof fn lemma_insert_holders(index: IndexView, digest: u128, entry: EntryView, h: u128)
    ensures
        index.insert(digest, entry).holders(h) == if h == digest {
            index.holders(h).insert(entry)
        } else {
            index.holders(h)
        },
{
    broadcast use vstd::seq_lib::group_to_multiset_ensures;

}

/// The hashes that have a group, in the order of the groups.
pub open spec fn duplicate_digests(index: IndexView) -> Seq<u128> {
    index.order.filter(|h: u128| index.is_duplicate(h))
}

/// What is kept of a sequence without repetitions has none.
pub proof fn lemma_filter_distinct(digests: Seq<u128>, keep: spec_fn(u128) -> bool)
    requires
        digests.no_duplicates(),
    ensures
        digests.filter(keep).no_duplicates(),
        forall|h: u128| #[trigger]
            digests.filter(keep).contains(h) <==> digests.contains(h) && keep(h),
    decreases digests.len(),
{
    if digests.len() == 0 {
        broadcast use vstd::seq_lib::group_filter_ensures;

        assert(digests.filter(keep) =~= Seq::empty());
    } else {
        let front = digests.drop_last();
        let last = digests.last();
        assert(front.push(last) =~= digests);
        lemma_filter_distinct(front, keep);
        front.lemma_filter_push(last, keep);
        let kept = digests.filter(keep);
        assert(!front.contains(last)) by {
            if front.contains(last) {
                let i = choose|i: int| 0 <= i < front.len() && front[i] == last;
                assert(digests[i] == digests[digests.len() - 1]);
            }
        }
        assert forall|h: u128| #[trigger] kept.contains(h) <==> digests.contains(h) && keep(h) by {
            if kept.contains(h) {
                let i = choose|i: int| 0 <= i < kept.len() && kept[i] == h;
                if keep(last) && i == kept.len() - 1 {
                    assert(digests[digests.len() - 1] == h);
                } else {
                    assert(front.filter(keep)[i] == h);
                    assert(front.filter(keep).contains(h));
                    let k = choose|k: int| 0 <= k < front.len() && front[k] == h;
                    assert(digests[k] == h);
                }
            }
            if digests.contains(h) && keep(h) {
                let k = choose|k: int| 0 <= k < digests.len() && digests[k] == h;
                if k == digests.len() - 1 {
                    assert(kept[kept.len() - 1] == h);
                } else {
                    assert(front[k] == h);
                    assert(front.filter(keep).contains(h));
                    let i = choose|i: int|
                        0 <= i < front.filter(keep).len() && front.filter(keep)[i] == h;
                    assert(kept[i] == h);
                }
            }
        }
        if keep(last) {
            assert forall|i: int, j: int| 0 <= i < kept.len() && 0 <= j < kept.len() && i != j
                implies kept[i] != kept[j] by {
                if i == kept.len() - 1 {
                    assert(front.filter(keep)[j] == kept[j]);
                    assert(front.filter(keep).contains(kept[j]));
                } else if j == kept.len() - 1 {
                    assert(front.filter(keep)[i] == kept[i]);
                    assert(front.filter(keep).contains(kept[i]));
                }
            }
        }
    }
}

/// The groups are the buckets of two or more files: every group is one of
/// them, each of them is a group, and none comes twice. A bucket of fewer
/// than two files is no group.
pub proof fn lemma_groups_are_shared_buckets(index: IndexView)
    requires
        index.wf(),
    ensures
        index.groups().len() == duplicate_digests(index).len(),
        forall|i: int|
            0 <= i < index.groups().len() ==> {
                &&& (#[trigger] index.groups()[i]).digest == duplicate_digests(index)[i]
                &&& index.groups()[i].entries == index.bucket(index.groups()[i].digest)
                &&& index.groups()[i].entries.len() >= 2
            },
        forall|h: u128| duplicate_digests(index).contains(h) <==> index.is_duplicate(h),
        duplicate_digests(index).no_duplicates(),
{
    let keep = |h: u128| index.is_duplicate(h);
    lemma_filter_distinct(index.order, keep);
    assert forall|i: int| 0 <= i < index.groups().len() implies {
        &&& (#[trigger] index.groups()[i]).digest == duplicate_digests(index)[i]
        &&& index.groups()[i].entries == index.bucket(index.groups()[i].digest)
        &&& index.groups()[i].entries.len() >= 2
    } by {
        let h = duplicate_digests(index)[i];
        assert(duplicate_digests(index).contains(h));
    }
    assert forall|h: u128| duplicate_digests(index).contains(h) <==> index.is_duplicate(h) by {
        assert(index.order.filter(keep).contains(h) <==> index.order.contains(h) && keep(h));
        if index.is_duplicate(h) {
            assert(index.buckets.contains_key(h));
            assert(index.order.contains(h));
        }
    }
}

/// Indexes with the same content have the same groups, but for the order of
/// the groups and of the files in each: the same hashes are shared, and
/// under each the same files are held.
pub proof fn lemma_same_content_same_groups(a: IndexView, b: IndexView)
    requires
        a.wf(),
        b.wf(),
        a.same_content(b),
    ensures
        forall|h: u128| a.buckets.contains_key(h) == b.buckets.contains_key(h),
        forall|h: u128| a.is_duplicate(h) == b.is_duplicate(h),
        forall|h: u128| duplicate_digests(a).contains(h) == duplicate_digests(b).contains(h),
        a.groups().len() == b.groups().len(),
{
    broadcast use vstd::seq_lib::group_to_multiset_ensures;

    assert forall|h: u128| a.bucket(h).len() == b.bucket(h).len() by {
        assert(a.holders(h) == b.holders(h));
        assert(a.bucket(h).to_multiset().len() == a.bucket(h).len());
        assert(b.bucket(h).to_multiset().len() == b.bucket(h).len());
    }
    assert forall|h: u128| a.buckets.contains_key(h) == b.buckets.contains_key(h) by {
        assert(a.bucket(h).len() == b.bucket(h).len());
    }
    assert forall|h: u128| a.is_duplicate(h) == b.is_duplicate(h) by {
        assert(a.bucket(h).len() == b.bucket(h).len());
    }
    lemma_groups_are_shared_buckets(a);
    lemma_groups_are_shared_buckets(b);
    assert forall|h: u128| duplicate_digests(a).contains(h) == duplicate_digests(b).contains(
        h,
    ) by {
        assert(a.is_duplicate(h) == b.is_duplicate(h));
    }
    let da = duplicate_digests(a);
    let db = duplicate_digests(b);
    da.unique_seq_to_set();
    db.unique_seq_to_set();
    assert(da.to_set() =~= db.to_set());
}

/// Where no two files share a hash there is no group.
pub proof fn lemma_no_shared_hash_no_group(index: IndexView)
    requires
        index.wf(),
        forall|h: u128| index.bucket(h).len() <= 1,
    ensures
        index.groups() == Seq::<GroupView>::empty(),
{
    lemma_groups_are_shared_buckets(index);
    let d = duplicate_digests(index);
    if d.len() > 0 {
        assert(d.contains(d[0]));
        assert(index.bucket(d[0]).len() <= 1);
    }
    assert(index.groups() =~= Seq::<GroupView>::empty());
}

/// Files that share one content hash.
#[derive(Debug)]
pub struct DuplicateGroup {
    pub digest: u128,
    pub entries: Vec<Entry>,
}

impl View for DuplicateGroup {
    type V = GroupView;

    open spec fn view(&self) -> GroupView {
        GroupView { digest: self.digest, entries: entry_views(self.entries@) }
    }
}

/// The values of a sequence of groups, in order.
pub open spec fn group_views(groups: Seq<DuplicateGroup>) -> Seq<GroupView> {
    groups.map_values(|g: DuplicateGroup| g@)
}

struct Bucket {
    digest: u128,
    entries: Vec<Entry>,
}

/// A mapping from content hash to the files that have it.
pub struct DuplicateIndex {
    slots: HashMap<u128, usize>,
    buckets: Vec<Bucket>,
}

impl View for DuplicateIndex {
    type V = IndexView;

    closed spec fn view(&self) -> IndexView {
        IndexView {
            order: Seq::new(self.buckets@.len(), |i: int| self.buckets@[i].digest),
            buckets: Map::new(
                |h: u128| self.slots@.contains_key(h),
                |h: u128| entry_views(self.buckets@[self.slots@[h] as int].entries@),
            ),
        }
    }
}

impl DuplicateIndex {
    /// The index is consistent: its lookup table and its buckets agree.
    pub closed spec fn wf(&self) -> bool {
        &&& forall|i: int|
            0 <= i < self.buckets@.len() ==> {
                &&& self.slots@.contains_key(#[trigger] self.buckets@[i].digest)
                &&& self.slots@[self.buckets@[i].digest] == i
                &&& self.buckets@[i].entries@.len() > 0
            }
        &&& forall|h: u128| #[trigger]
            self.slots@.contains_key(h) ==> {
                &&& self.slots@[h] < self.buckets@.len()
                &&& self.buckets@[self.slots@[h] as int].digest == h
            }
    }

    /// A consistent index has a well-formed value.
    pub proof fn lemma_view_wf(&self)
        requires
            self.wf(),
        ensures
            self@.wf(),
    {
        let v = self@;
        assert forall|i: int, j: int| 0 <= i < v.order.len() && 0 <= j < v.order.len() && i != j
            implies v.order[i] != v.order[j] by {
            assert(self.slots@[self.buckets@[i].digest] == i);
            assert(self.slots@[self.buckets@[j].digest] == j);
        }
        assert forall|h: u128| v.buckets.contains_key(h) <==> v.order.contains(h) by {
            if v.buckets.contains_key(h) {
                assert(v.order[self.slots@[h] as int] == h);
            }
            if v.order.contains(h) {
                let i = choose|i: int| 0 <= i < v.order.len() && v.order[i] == h;
                assert(self.slots@.contains_key(self.buckets@[i].digest));
            }
        }
    }

    /// An index without files.
    pub fn new() -> (index: DuplicateIndex)
        ensures
            index.wf(),
            index@ == IndexView::empty(),
    {
        let index = DuplicateIndex { slots: HashMap::new(), buckets: Vec::new() };
        assert(index@.order =~= IndexView::empty().order);
        assert(index@.buckets =~= IndexView::empty().buckets);
        index
    }

    /// Records that the file `entry` has the content hash `digest`.
    pub fn insert(&mut self, digest: u128, entry: Entry)
        requires
            old(self).wf(),
        ensures
            final(self).wf(),
            final(self)@ == old(self)@.insert(digest, entry@),
    {
        let ghost before = *self;
        let found: Option<usize> = match self.slots.get(&digest) {
            Some(i) => Some(*i),
            None => None,
        };
        match found {
            Some(i) => {
                self.buckets[i].entries.push(entry);
                proof {
                    assert(self.slots@ == before.slots@);
                    assert(self.buckets@.len() == before.buckets@.len());
                    assert forall|j: int| 0 <= j < self.buckets@.len() implies #[trigger]
                        self.buckets@[j].digest == before.buckets@[j].digest by {}
                    assert(self@.order =~= before@.insert(digest, entry@).order);
                    assert forall|h: u128| self.slots@.contains_key(h) implies #[trigger]
                        self@.buckets[h] == before@.insert(digest, entry@).buckets[h] by {
                        let k = self.slots@[h] as int;
                        if h == digest {
                            assert(self.buckets@[k].entries@ == before.buckets@[k].entries@.push(
                                entry,
                            ));
                            assert(entry_views(self.buckets@[k].entries@) =~= entry_views(
                                before.buckets@[k].entries@,
                            ).push(entry@));
                        } else {
                            assert(k != i as int);
                            assert(self.buckets@[k] == before.buckets@[k]);
                        }
                    }
                    assert(self@.buckets =~= before@.insert(digest, entry@).buckets);
                }
            },
            None => {
                let at = self.buckets.len();
                let mut entries: Vec<Entry> = Vec::new();
                entries.push(entry);
                self.slots.insert(digest, at);
                self.buckets.push(Bucket { digest, entries });
                proof {
                    assert(self@.order =~= before@.insert(digest, entry@).order);
                    assert forall|h: u128| self.slots@.contains_key(h) implies #[trigger]
                        self@.buckets[h] == before@.insert(digest, entry@).buckets[h] by {
                        if h == digest {
                            assert(entry_views(self.buckets@[at as int].entries@) =~= Seq::<
                                EntryView,
                            >::empty().push(entry@));
                        } else {
                            assert(before.slots@.contains_key(h));
                        }
                    }
                    assert(self@.buckets =~= before@.insert(digest, entry@).buckets);
                    assert forall|j: int| 0 <= j < self.buckets@.len() implies {
                        &&& self.slots@.contains_key(#[trigger] self.buckets@[j].digest)
                        &&& self.slots@[self.buckets@[j].digest] == j
                        &&& self.buckets@[j].entries@.len() > 0
                    } by {
                        if j < at {
                            assert(before.slots@.contains_key(before.buckets@[j].digest));
                        }
                    }
                }
            },
        }
    }

    /// The hashes seen so far, in the order in which each was first seen.
    pub fn digests(&self) -> (digests: Vec<u128>)
        requires
            self.wf(),
        ensures
            digests@ == self@.order,
    {
        let mut digests: Vec<u128> = Vec::new();
        let mut i: usize = 0;
        while i < self.buckets.len()
            invariant
                i <= self.buckets@.len(),
                digests@ == self@.order.take(i as int),
            decreases self.buckets@.len() - i,
        {
            digests.push(self.buckets[i].digest);
            assert(digests@ =~= self@.order.take(i + 1));
            i = i + 1;
        }
        assert(self@.order.take(i as int) =~= self@.order);
        digests
    }

    /// The files recorded under `digest`, oldest first.
    pub fn bucket(&self, digest: u128) -> (entries: Vec<Entry>)
        requires
            self.wf(),
        ensures
            entry_views(entries@) == self@.bucket(digest),
    {
        match self.slots.get(&digest) {
            Some(i) => clone_entries(&self.buckets[*i].entries),
            None => {
                let entries: Vec<Entry> = Vec::new();
                assert(entry_views(entries@) =~= self@.bucket(digest));
                entries
            },
        }
    }

    /// The duplicate groups: every hash that two or more files share, with
    /// those files.
    pub fn duplicate_groups(&self) -> (groups: Vec<DuplicateGroup>)
        requires
            self.wf(),
        ensures
            group_views(groups@) == self@.groups(),
    {
        let ghost keep = |h: u128| self@.is_duplicate(h);
        let ghost build = |h: u128| self@.group(h);
        let mut groups: Vec<DuplicateGroup> = Vec::new();
        let mut i: usize = 0;
        assert(self@.order.take(0).filter(keep) =~= Seq::empty()) by {
            broadcast use vstd::seq_lib::group_filter_ensures;

        }
        while i < self.buckets.len()
            invariant
                self.wf(),
                i <= self.buckets@.len(),
                keep == |h: u128| self@.is_duplicate(h),
                build == |h: u128| self@.group(h),
                group_views(groups@) == self@.order.take(i as int).filter(keep).map_values(build),
            decreases self.buckets@.len() - i,
        {
            let bucket = &self.buckets[i];
            proof {
                let h = bucket.digest;
                assert(self.slots@.contains_key(self.buckets@[i as int].digest));
                assert(self@.bucket(h) == entry_views(bucket.entries@));
                assert(self@.order.take(i + 1) =~= self@.order.take(i as int).push(h));
                self@.order.take(i as int).lemma_filter_push(h, keep);
            }
            if bucket.entries.len() >= 2 {
                let entries = clone_entries(&bucket.entries);
                let ghost before = groups@;
                let ghost kept = self@.order.take(i as int).filter(keep);
                groups.push(DuplicateGroup { digest: bucket.digest, entries });
                assert(groups@[before.len() as int]@ == build(bucket.digest));
                assert(group_views(groups@) =~= group_views(before).push(build(bucket.digest)));
                assert(kept.push(bucket.digest).map_values(build) =~= kept.map_values(build).push(
                    build(bucket.digest),
                ));
            }
            i = i + 1;
        }
        assert(self@.order.take(i as int) =~= self@.order);
        groups
    }
}

/// Copies a list of entries.
pub fn clone_entries(entries: &Vec<Entry>) -> (copy: Vec<Entry>)
    ensures
        entry_views(copy@) == entry_views(entries@),
{
    let mut copy: Vec<Entry> = Vec::new();
    let mut i: usize = 0;
    while i < entries.len()
        invariant
            i <= entries@.len(),
            entry_views(copy@) == entry_views(entries@).take(i as int),
        decreases entries@.len() - i,
    {
        let ghost before = copy@;
        copy.push(entries[i].clone());
        assert(entry_views(copy@) =~= entry_views(before).push(copy@[i as int]@));
        assert(entry_views(copy@) =~= entry_views(entries@).take(i + 1));
        i = i + 1;
    }
    assert(entry_views(entries@).take(i as int) =~= entry_views(entries@));
    copy
}

} // verus!
