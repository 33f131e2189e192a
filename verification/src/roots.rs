//! The roots of a scan.
//!
//! A caller may name a directory and, beside it, a directory inside it. The
//! walk of the outer one reaches everything in the inner one, so only the
//! outer one is scanned. The caller resolves the paths and says of each what
//! its components are; which roots stay is decided here.

use crate::entry::{Entry, EntryView};
use crate::error::ScanError;
use vstd::prelude::*;

verus! {

/// A directory that the caller wants scanned, as the caller resolved it.
#[derive(Debug, PartialEq, Eq)]
pub struct Root {
    /// The resolved path as text.
    pub path: String,
    /// The components of the path, outermost first.
    pub components: Vec<String>,
    /// The last component, where the path has one: a file system root has
    /// none.
    pub name: Option<String>,
    /// Whether the path names a directory.
    pub is_dir: bool,
}

/// The mathematical value of a [`Root`].
pub struct RootView {
    pub path: Seq<char>,
    pub components: Seq<Seq<char>>,
    pub name: Option<Seq<char>>,
    pub is_dir: bool,
}

/// The values of a sequence of strings, in order.
pub open spec fn texts(strings: Seq<String>) -> Seq<Seq<char>> {
    strings.map_values(|s: String| s@)
}

impl View for Root {
    type V = RootView;

    open spec fn view(&self) -> RootView {
        RootView {
            path: self.path@,
            components: texts(self.components@),
            name: match self.name {
                Some(name) => Some(name@),
                None => None,
            },
            is_dir: self.is_dir,
        }
    }
}

/// The values of a sequence of roots, in order.
pub open spec fn root_views(roots: Seq<Root>) -> Seq<RootView> {
    roots.map_values(|r: Root| r@)
}

impl RootView {
    /// The number of components of the path.
    pub open spec fn depth(self) -> nat {
        self.components.len()
    }

    /// Whether this root is `outer` or lies inside it: the components of
    /// `outer` are the first components of this root.
    pub open spec fn within(self, outer: RootView) -> bool {
        outer.components.is_prefix_of(self.components)
    }
}

impl Clone for Root {
    fn clone(&self) -> (copy: Root)
        ensures
            copy@ == self@,
    {
        let mut components: Vec<String> = Vec::new();
        let mut i: usize = 0;
        while i < self.components.len()
            invariant
                i <= self.components@.len(),
                texts(components@) == texts(self.components@).take(i as int),
            decreases self.components@.len() - i,
        {
            let ghost before = components@;
            components.push(self.components[i].clone());
            assert(texts(components@) =~= texts(before).push(self.components@[i as int]@));
            assert(texts(components@) =~= texts(self.components@).take(i + 1));
            i = i + 1;
        }
        assert(texts(self.components@).take(i as int) =~= texts(self.components@));
        let name = match &self.name {
            Some(name) => Some(name.clone()),
            None => None,
        };
        Root { path: self.path.clone(), components, name, is_dir: self.is_dir }
    }
}

impl Root {
    /// Whether this root is `outer` or lies inside it.
    pub fn is_within(&self, outer: &Root) -> (inside: bool)
        ensures
            inside == self@.within(outer@),
    {
        if outer.components.len() > self.components.len() {
            return false;
        }
        let ghost mine = texts(self.components@);
        let ghost theirs = texts(outer.components@);
        let mut i: usize = 0;
        while i < outer.components.len()
            invariant
                i <= outer.components@.len(),
                outer.components@.len() <= self.components@.len(),
                mine == texts(self.components@),
                theirs == texts(outer.components@),
                forall|k: int| 0 <= k < i ==> mine[k] == theirs[k],
            decreases outer.components@.len() - i,
        {
            if self.components[i] != outer.components[i] {
                assert(mine[i as int] != theirs[i as int]);
                assert(mine.subrange(0, theirs.len() as int)[i as int] != theirs[i as int]);
                return false;
            }
            i = i + 1;
        }
        assert(mine.subrange(0, theirs.len() as int) =~= theirs);
        true
    }
}

/// The place of a root of depth `depth` in `sorted`: behind every root that
/// is no deeper, before the first that is deeper.
pub open spec fn slot(sorted: Seq<RootView>, depth: nat) -> nat
    decreases sorted.len(),
{
    if sorted.len() == 0 || sorted[0].depth() > depth {
        0
    } else {
        1 + slot(sorted.drop_first(), depth)
    }
}

/// `sorted` with `root` put in its place.
pub open spec fn placed(sorted: Seq<RootView>, root: RootView) -> Seq<RootView> {
    sorted.insert(slot(sorted, root.depth()) as int, root)
}

/// The roots in the order of their depth, the shallowest first. Roots of
/// one depth stay in the order in which they were given.
pub open spec fn by_depth(roots: Seq<RootView>) -> Seq<RootView>
    decreases roots.len(),
{
    if roots.len() == 0 {
        Seq::empty()
    } else {
        placed(by_depth(roots.drop_last()), roots.last())
    }
}

/// Whether `root` is one of `kept` or lies inside one of them.
pub open spec fn covered(kept: Seq<RootView>, root: RootView) -> bool {
    exists|i: int| 0 <= i < kept.len() && root.within(#[trigger] kept[i])
}

/// The roots that stay when `sorted` is gone through in order and every
/// root is dropped that an earlier one that stayed already covers.
pub open spec fn top_most(sorted: Seq<RootView>) -> Seq<RootView>
    decreases sorted.len(),
{
    if sorted.len() == 0 {
        Seq::empty()
    } else {
        let kept = top_most(sorted.drop_last());
        if covered(kept, sorted.last()) {
            kept
        } else {
            kept.push(sorted.last())
        }
    }
}

/// The roots that are scanned when the caller asks for `roots`.
pub open spec fn normalised(roots: Seq<RootView>) -> Seq<RootView> {
    top_most(by_depth(roots))
}

/// What the caller is told to scan.
#[derive(Debug)]
pub struct Normalised {
    /// The roots that are scanned, the shallowest first.
    pub roots: Vec<Root>,
    /// Whether a root was dropped because another covers it.
    pub collapsed: bool,
}

fn find_slot(sorted: &Vec<Root>, depth: usize) -> (place: usize)
    ensures
        place == slot(root_views(sorted@), depth as nat),
        place <= sorted@.len(),
{
    let ghost all = root_views(sorted@);
    let mut place: usize = 0;
    assert(all.skip(0) =~= all);
    while place < sorted.len() && sorted[place].components.len() <= depth
        invariant
            place <= sorted@.len(),
            all == root_views(sorted@),
            slot(all, depth as nat) == place + slot(all.skip(place as int), depth as nat),
        decreases sorted@.len() - place,
    {
        assert(all.skip(place as int).drop_first() =~= all.skip(place + 1));
        assert(all.skip(place as int)[0] == all[place as int]);
        place = place + 1;
    }
    proof {
        if place < sorted.len() {
            assert(all.skip(place as int)[0] == all[place as int]);
        }
    }
    place
}

fn sort_by_depth(roots: &Vec<Root>) -> (sorted: Vec<Root>)
    ensures
        root_views(sorted@) == by_depth(root_views(roots@)),
{
    let ghost given = root_views(roots@);
    let mut sorted: Vec<Root> = Vec::new();
    let mut i: usize = 0;
    assert(given.take(0) =~= Seq::empty());
    assert(root_views(sorted@) =~= Seq::empty());
    while i < roots.len()
        invariant
            i <= roots@.len(),
            given == root_views(roots@),
            root_views(sorted@) == by_depth(given.take(i as int)),
        decreases roots@.len() - i,
    {
        let root = roots[i].clone();
        let place = find_slot(&sorted, root.components.len());
        let ghost before = sorted@;
        let ghost added = root@;
        sorted.insert(place, root);
        proof {
            assert(given.take(i + 1).drop_last() =~= given.take(i as int));
            assert(given.take(i + 1).last() == given[i as int]);
            assert(root_views(sorted@) =~= root_views(before).insert(place as int, added));
        }
        i = i + 1;
    }
    assert(given.take(i as int) =~= given);
    sorted
}

fn is_covered(kept: &Vec<Root>, root: &Root) -> (found: bool)
    ensures
        found == covered(root_views(kept@), root@),
{
    let mut i: usize = 0;
    while i < kept.len()
        invariant
            i <= kept@.len(),
            forall|k: int| 0 <= k < i ==> !root@.within(#[trigger] root_views(kept@)[k]),
        decreases kept@.len() - i,
    {
        if root.is_within(&kept[i]) {
            assert(root@.within(root_views(kept@)[i as int]));
            return true;
        }
        i = i + 1;
    }
    false
}

/// Decides which of the roots that the caller asks for are scanned.
///
/// The roots are put in the order of their depth, and every root is dropped
/// that is another root that stays, or lies inside one. Asking for no root
/// at all is refused.
pub fn normalise_roots(roots: &Vec<Root>) -> (result: Result<Normalised, ScanError>)
    ensures
        result is Ok <==> roots@.len() > 0,
        result matches Ok(kept) ==> {
            &&& root_views(kept.roots@) == normalised(root_views(roots@))
            &&& kept.collapsed == (kept.roots@.len() < roots@.len())
        },
        result matches Err(e) ==> e == ScanError::InvalidInput,
{
    if roots.len() == 0 {
        return Err(ScanError::InvalidInput);
    }
    let sorted = sort_by_depth(roots);
    let ghost all = root_views(sorted@);
    let mut kept: Vec<Root> = Vec::new();
    let mut collapsed = false;
    let mut i: usize = 0;
    assert(all.take(0) =~= Seq::empty());
    assert(root_views(kept@) =~= Seq::empty());
    proof {
        lemma_by_depth(root_views(roots@));
    }
    while i < sorted.len()
        invariant
            i <= sorted@.len(),
            all == root_views(sorted@),
            root_views(kept@) == top_most(all.take(i as int)),
            kept@.len() <= i,
            collapsed == (kept@.len() < i),
        decreases sorted@.len() - i,
    {
        proof {
            assert(all.take(i + 1).drop_last() =~= all.take(i as int));
            assert(all.take(i + 1).last() == all[i as int]);
        }
        if is_covered(&kept, &sorted[i]) {
            collapsed = true;
        } else {
            let ghost before = kept@;
            kept.push(sorted[i].clone());
            assert(root_views(kept@) =~= root_views(before).push(all[i as int]));
        }
        i = i + 1;
    }
    assert(all.take(i as int) =~= all);
    Ok(Normalised { roots: kept, collapsed })
}

/// What the caller is told when roots were dropped.
pub open spec fn notice_of(collapsed: bool) -> Option<Seq<char>> {
    if collapsed {
        Some("INFO: Nested directories were removed"@)
    } else {
        None
    }
}

/// The notice that is printed when a root was dropped because another
/// covers it; there is none when every root stays.
pub fn collapse_notice(collapsed: bool) -> (notice: Option<String>)
    ensures
        notice is Some <==> collapsed,
        match notice {
            Some(text) => Some(text@) == notice_of(collapsed),
            None => notice_of(collapsed) is None,
        },
{
    if collapsed {
        Some("INFO: Nested directories were removed".to_owned())
    } else {
        None
    }
}

/// Whether the roots come in the order of their depth.
pub open spec fn depth_ordered(roots: Seq<RootView>) -> bool {
    forall|i: int, j: int| 0 <= i < j < roots.len() ==> roots[i].depth() <= roots[j].depth()
}

/// Whether no root of `roots` is another of them or lies inside one.
pub open spec fn independent(roots: Seq<RootView>) -> bool {
    forall|i: int, j: int|
        0 <= i < roots.len() && 0 <= j < roots.len() && i != j ==> !roots[i].within(roots[j])
}

/// The roots before the place are no deeper, the root at it is deeper.
pub proof fn lemma_slot_splits(sorted: Seq<RootView>, depth: nat)
    ensures
        slot(sorted, depth) <= sorted.len(),
        forall|i: int| 0 <= i < slot(sorted, depth) ==> sorted[i].depth() <= depth,
        slot(sorted, depth) < sorted.len() ==> sorted[slot(sorted, depth) as int].depth() > depth,
    decreases sorted.len(),
{
    if sorted.len() > 0 && sorted[0].depth() <= depth {
        let rest = sorted.drop_first();
        lemma_slot_splits(rest, depth);
        assert forall|i: int| 0 <= i < slot(sorted, depth) implies sorted[i].depth() <= depth by {
            if i > 0 {
                assert(rest[i - 1] == sorted[i]);
            }
        }
        if slot(sorted, depth) < sorted.len() {
            assert(rest[slot(rest, depth) as int] == sorted[slot(sorted, depth) as int]);
        }
    }
}

/// Sorting gives the order of depth, and it neither adds a root nor loses
/// one.
pub proof fn lemma_by_depth(roots: Seq<RootView>)
    ensures
        depth_ordered(by_depth(roots)),
        by_depth(roots).len() == roots.len(),
        by_depth(roots).to_multiset() == roots.to_multiset(),
        forall|r: RootView| by_depth(roots).contains(r) <==> roots.contains(r),
    decreases roots.len(),
{
    broadcast use vstd::seq_lib::group_to_multiset_ensures;

    let sorted = by_depth(roots);
    if roots.len() == 0 {
    } else {
        let front = roots.drop_last();
        let last = roots.last();
        let before = by_depth(front);
        let place = slot(before, last.depth()) as int;
        lemma_by_depth(front);
        lemma_slot_splits(before, last.depth());
        assert(front.push(last) =~= roots);
        assert(sorted == before.insert(place, last));
        assert forall|i: int, j: int| 0 <= i < j < sorted.len() implies sorted[i].depth()
            <= sorted[j].depth() by {
            if j < place {
                assert(sorted[i] == before[i] && sorted[j] == before[j]);
            } else if j == place {
                assert(sorted[i] == before[i]);
            } else if i < place {
                assert(sorted[i] == before[i] && sorted[j] == before[j - 1]);
                assert(before[place].depth() <= before[j - 1].depth());
            } else if i == place {
                assert(sorted[j] == before[j - 1]);
                assert(before[place].depth() <= before[j - 1].depth());
            } else {
                assert(sorted[i] == before[i - 1] && sorted[j] == before[j - 1]);
            }
        }
        assert(sorted.to_multiset() =~= before.to_multiset().insert(last));
        assert(roots.to_multiset() =~= front.to_multiset().insert(last));
        assert forall|r: RootView| sorted.contains(r) <==> roots.contains(r) by {
            assert(sorted.to_multiset().count(r) == roots.to_multiset().count(r));
        }
    }
}

/// What stays of roots that come in the order of their depth: only roots
/// that were given, none of them another of them or inside one, and together
/// they cover every root that was given.
pub proof fn lemma_top_most(sorted: Seq<RootView>)
    requires
        depth_ordered(sorted),
    ensures
        top_most(sorted).len() <= sorted.len(),
        depth_ordered(top_most(sorted)),
        independent(top_most(sorted)),
        forall|i: int| 0 <= i < top_most(sorted).len() ==> sorted.contains(
            #[trigger] top_most(sorted)[i],
        ),
        forall|i: int| 0 <= i < sorted.len() ==> covered(top_most(sorted), #[trigger] sorted[i]),
        forall|i: int|
            0 <= i < top_most(sorted).len() ==> (#[trigger] top_most(sorted)[i]).depth()
                <= sorted.last().depth(),
    decreases sorted.len(),
{
    let kept = top_most(sorted);
    if sorted.len() > 0 {
        let front = sorted.drop_last();
        let last = sorted.last();
        let before = top_most(front);
        assert(depth_ordered(front)) by {
            assert forall|i: int, j: int| 0 <= i < j < front.len() implies front[i].depth()
                <= front[j].depth() by {
                assert(front[i] == sorted[i] && front[j] == sorted[j]);
            }
        }
        lemma_top_most(front);
        assert forall|i: int| 0 <= i < before.len() implies (#[trigger] before[i]).depth()
            <= last.depth() by {
            assert(front.contains(before[i]));
            let k = choose|k: int| 0 <= k < front.len() && front[k] == before[i];
            assert(sorted[k] == before[i]);
        }
        assert forall|i: int| 0 <= i < kept.len() implies sorted.contains(#[trigger] kept[i]) by {
            if i < before.len() {
                assert(front.contains(before[i]));
                let k = choose|k: int| 0 <= k < front.len() && front[k] == before[i];
                assert(sorted[k] == kept[i]);
            } else {
                assert(sorted[sorted.len() - 1] == kept[i]);
            }
        }
        if covered(before, last) {
            assert forall|i: int| 0 <= i < sorted.len() implies covered(
                kept,
                #[trigger] sorted[i],
            ) by {
                if i < front.len() {
                    assert(covered(before, front[i]));
                }
            }
        } else {
            assert(last.within(last));
            assert forall|i: int| 0 <= i < sorted.len() implies covered(
                kept,
                #[trigger] sorted[i],
            ) by {
                if i < front.len() {
                    assert(covered(before, front[i]));
                    let k = choose|k: int| 0 <= k < before.len() && front[i].within(before[k]);
                    assert(kept[k] == before[k]);
                } else {
                    assert(sorted[i].within(kept[kept.len() - 1]));
                }
            }
            assert forall|i: int, j: int|
                0 <= i < kept.len() && 0 <= j < kept.len() && i != j implies !kept[i].within(
                kept[j],
            ) by {
                if i < before.len() && j < before.len() {
                    assert(!before[i].within(before[j]));
                } else if i == before.len() {
                    assert(kept[j] == before[j]);
                } else {
                    assert(kept[i] == before[i]);
                    assert(before[i].depth() <= last.depth());
                    if kept[i].within(last) {
                        assert(last.components =~= kept[i].components.subrange(
                            0,
                            last.components.len() as int,
                        ));
                        assert(kept[i].components =~= last.components);
                        assert(last.within(before[i]));
                    }
                }
            }
            assert forall|i: int, j: int| 0 <= i < j < kept.len() implies kept[i].depth()
                <= kept[j].depth() by {
                if j < before.len() {
                    assert(before[i].depth() <= before[j].depth());
                } else {
                    assert(kept[i] == before[i]);
                }
            }
        }
    }
}

/// The roots that are scanned stand for the roots that were asked for. Each
/// of them was asked for; none of them is another of them or lies inside
/// one; and every root that was asked for is one of them or lies inside one,
/// so that a scan of them reaches whatever a scan of all would reach.
pub proof fn lemma_normalised_covers(roots: Seq<RootView>)
    ensures
        normalised(roots).len() <= roots.len(),
        independent(normalised(roots)),
        forall|i: int| 0 <= i < normalised(roots).len() ==> roots.contains(
            #[trigger] normalised(roots)[i],
        ),
        forall|i: int| 0 <= i < roots.len() ==> covered(normalised(roots), #[trigger] roots[i]),
{
    let sorted = by_depth(roots);
    lemma_by_depth(roots);
    lemma_top_most(sorted);
    assert forall|i: int| 0 <= i < normalised(roots).len() implies roots.contains(
        #[trigger] normalised(roots)[i],
    ) by {
        assert(sorted.contains(normalised(roots)[i]));
    }
    assert forall|i: int| 0 <= i < roots.len() implies covered(
        normalised(roots),
        #[trigger] roots[i],
    ) by {
        assert(roots.contains(roots[i]));
        assert(sorted.contains(roots[i]));
        let k = choose|k: int| 0 <= k < sorted.len() && sorted[k] == roots[i];
        assert(covered(normalised(roots), sorted[k]));
    }
}

/// Roots that come in the order of their depth, none of them another of them
/// or inside one, all stay, in their order.
pub proof fn lemma_independent_roots_stay(roots: Seq<RootView>)
    requires
        depth_ordered(roots),
        independent(roots),
    ensures
        by_depth(roots) == roots,
        normalised(roots) == roots,
    decreases roots.len(),
{
    if roots.len() > 0 {
        let front = roots.drop_last();
        let last = roots.last();
        assert(front.push(last) =~= roots);
        assert(depth_ordered(front)) by {
            assert forall|i: int, j: int| 0 <= i < j < front.len() implies front[i].depth()
                <= front[j].depth() by {
                assert(front[i] == roots[i] && front[j] == roots[j]);
            }
        }
        assert(independent(front)) by {
            assert forall|i: int, j: int|
                0 <= i < front.len() && 0 <= j < front.len() && i != j implies !front[i].within(
                front[j],
            ) by {
                assert(front[i] == roots[i] && front[j] == roots[j]);
            }
        }
        lemma_independent_roots_stay(front);
        lemma_slot_splits(front, last.depth());
        let place = slot(front, last.depth());
        if place < front.len() {
            assert(front[place as int] == roots[place as int]);
            assert(roots[place as int].depth() <= roots[roots.len() - 1].depth());
        }
        assert(front.insert(front.len() as int, last) =~= front.push(last));
        assert(by_depth(roots) == roots);
        assert(!covered(front, last)) by {
            if covered(front, last) {
                let i = choose|i: int| 0 <= i < front.len() && last.within(#[trigger] front[i]);
                assert(front[i] == roots[i]);
                assert(roots[roots.len() - 1].within(roots[i]));
            }
        }
    } else {
        assert(by_depth(roots) =~= roots);
        assert(top_most(roots) =~= roots);
    }
}

/// To settle the roots twice is to settle them once: what stays the first
/// time stays the second time.
pub proof fn lemma_normalised_is_settled(roots: Seq<RootView>)
    ensures
        normalised(normalised(roots)) == normalised(roots),
{
    lemma_by_depth(roots);
    lemma_top_most(by_depth(roots));
    lemma_independent_roots_stay(normalised(roots));
}

/// A root and a directory inside it collapse to the root: asked for both,
/// in either order, the scan is that of the outer one alone.
pub proof fn lemma_nested_pair_collapses(outer: RootView, inner: RootView)
    requires
        inner.within(outer),
        inner.depth() > outer.depth(),
    ensures
        normalised(seq![outer]) == seq![outer],
        normalised(seq![outer, inner]) == normalised(seq![outer]),
        normalised(seq![inner, outer]) == normalised(seq![outer]),
{
    reveal_with_fuel(by_depth, 3);
    reveal_with_fuel(top_most, 3);
    reveal_with_fuel(slot, 3);
    let e = Seq::<RootView>::empty();
    assert(seq![outer, inner].drop_last() =~= seq![outer]);
    assert(seq![inner, outer].drop_last() =~= seq![inner]);
    assert(seq![outer].drop_last() =~= e);
    assert(seq![inner].drop_last() =~= e);
    assert(by_depth(seq![outer]) =~= seq![outer]);
    assert(by_depth(seq![inner]) =~= seq![inner]);
    assert(seq![outer].drop_first() =~= e);
    assert(seq![inner].drop_first() =~= e);
    assert(slot(seq![outer], inner.depth()) == 1);
    assert(slot(seq![inner], outer.depth()) == 0);
    assert(by_depth(seq![outer, inner]) =~= seq![outer, inner]);
    assert(by_depth(seq![inner, outer]) =~= seq![outer, inner]);
    assert(top_most(seq![outer]) =~= seq![outer]) by {
        assert(!covered(e, outer));
        assert(top_most(e) =~= e);
    }
    assert(covered(seq![outer], inner)) by {
        assert(inner.within(seq![outer][0]));
    }
    assert(top_most(seq![outer, inner]) =~= seq![outer]);
}

/// The entries with which a walk of `roots` is seeded: one directory per
/// root, under the name and the path of the root. A root without a last
/// component has the empty name.
pub open spec fn seeds(roots: Seq<RootView>) -> Seq<EntryView> {
    roots.map_values(
        |r: RootView|
            EntryView {
                is_dir: true,
                name: match r.name {
                    Some(name) => name,
                    None => Seq::empty(),
                },
                path: r.path,
            },
    )
}

/// Whether every root is a directory.
pub open spec fn all_scannable(roots: Seq<RootView>) -> bool {
    forall|i: int| 0 <= i < roots.len() ==> (#[trigger] roots[i]).is_dir
}

/// Turns the roots of a scan into the entries with which a walk is seeded.
/// A root that is no directory is refused. A directory without a last
/// component, as the root of a file system is, is seeded under an empty name.
pub fn root_entries(roots: &Vec<Root>) -> (result: Result<Vec<Entry>, ScanError>)
    ensures
        result is Ok <==> all_scannable(root_views(roots@)),
        result matches Ok(entries) ==> crate::entry::entry_views(entries@) == seeds(
            root_views(roots@),
        ),
        result matches Err(e) ==> e == ScanError::InvalidInput,
{
    let ghost given = root_views(roots@);
    let mut entries: Vec<Entry> = Vec::new();
    let mut i: usize = 0;
    assert(crate::entry::entry_views(entries@) =~= seeds(given.take(0)));
    while i < roots.len()
        invariant
            i <= roots@.len(),
            given == root_views(roots@),
            all_scannable(given.take(i as int)),
            crate::entry::entry_views(entries@) == seeds(given.take(i as int)),
        decreases roots@.len() - i,
    {
        let root = &roots[i];
        if !root.is_dir {
            assert(!given[i as int].is_dir);
            return Err(ScanError::InvalidInput);
        }
        let name = match &root.name {
            Some(name) => name.clone(),
            None => String::new(),
        };
        let ghost before = entries@;
        entries.push(Entry { is_dir: true, name, path: root.path.clone() });
        proof {
            assert(given.take(i + 1) =~= given.take(i as int).push(given[i as int]));
            assert(crate::entry::entry_views(entries@) =~= crate::entry::entry_views(before).push(
                seeds(given)[i as int],
            ));
            assert(crate::entry::entry_views(entries@) =~= seeds(given.take(i + 1)));
        }
        i = i + 1;
    }
    assert(given.take(i as int) =~= given);
    Ok(entries)
}

} // verus!
