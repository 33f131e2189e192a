//! A directory tree as a mathematical value.
//!
//! The walkers never see a whole tree: they are told one listing at a time.
//! This model says what the listings of an unchanged tree are, so that the
//! result of a walk can be compared with the tree that was walked.

use crate::digest::digest_of;
use crate::entry::EntryView;
use vstd::multiset::Multiset;
use vstd::prelude::*;

verus! {

/// A file with its content, or a directory with what it holds.
pub enum Node {
    File { entry: EntryView, content: Seq<u8> },
    Dir { entry: EntryView, children: Seq<Node> },
}

impl Node {
    /// The entry under which a listing of the parent reports this node.
    pub open spec fn entry(self) -> EntryView {
        match self {
            Node::File { entry, .. } => entry,
            Node::Dir { entry, .. } => entry,
        }
    }

    /// What the node holds: nothing, for a file.
    pub open spec fn children(self) -> Seq<Node> {
        match self {
            Node::File { .. } => Seq::empty(),
            Node::Dir { children, .. } => children,
        }
    }

    /// Every entry in the tree says truly whether it is a directory.
    pub open spec fn wf(self) -> bool
        decreases self,
    {
        match self {
            Node::File { entry, .. } => !entry.is_dir,
            Node::Dir { entry, children } => entry.is_dir && forall|i: int|
                0 <= i < children.len() ==> (#[trigger] children[i]).wf(),
        }
    }

    /// The listing of the node: the entries of its children, in order.
    pub open spec fn listing(self) -> Seq<EntryView> {
        entries_of(self.children())
    }

    /// Every node below this one, each directory followed by what it holds.
    pub open spec fn below(self) -> Seq<Node>
        decreases self, 0nat,
    {
        match self {
            Node::File { .. } => Seq::empty(),
            Node::Dir { children, .. } => spread(children, children.len()),
        }
    }

    /// The number of entries below the node, files and directories alike.
    pub open spec fn descendants(self) -> nat {
        self.below().len()
    }

    /// Whether the node is a file whose content has the hash `digest`.
    pub open spec fn is_hit(self, digest: u128) -> bool {
        self matches Node::File { content, .. } && digest_of(content) == digest
    }
}

/// The entries of `nodes`, in order.
pub open spec fn entries_of(nodes: Seq<Node>) -> Seq<EntryView> {
    nodes.map_values(|n: Node| n.entry())
}

/// Whether every node of `nodes` is well-formed.
pub open spec fn all_wf(nodes: Seq<Node>) -> bool {
    forall|i: int| 0 <= i < nodes.len() ==> (#[trigger] nodes[i]).wf()
}

/// Whether every node of `nodes` is a directory.
pub open spec fn all_dirs(nodes: Seq<Node>) -> bool {
    forall|i: int| 0 <= i < nodes.len() ==> (#[trigger] nodes[i]) is Dir
}

/// The first `n` nodes of `nodes`, each followed by every node below it.
pub open spec fn spread(nodes: Seq<Node>, n: nat) -> Seq<Node>
    decreases nodes, n,
{
    if n == 0 || n > nodes.len() {
        Seq::empty()
    } else {
        spread(nodes, (n - 1) as nat).push(nodes[n - 1]) + nodes[n - 1].below()
    }
}

/// Every node in the trees `nodes`: each root followed by every node below it.
pub open spec fn forest(nodes: Seq<Node>) -> Seq<Node> {
    spread(nodes, nodes.len())
}

/// The directories among `nodes`, in order.
pub open spec fn dir_nodes(nodes: Seq<Node>) -> Seq<Node> {
    nodes.filter(|n: Node| n is Dir)
}

/// The files in the trees `nodes` whose content has the hash `digest`.
pub open spec fn holders_in(nodes: Seq<Node>, digest: u128) -> Multiset<EntryView> {
    entries_of(forest(nodes).filter(|n: Node| n.is_hit(digest))).to_multiset()
}

/// The number of entries below the roots `nodes`, the roots not counted.
pub open spec fn entries_under(nodes: Seq<Node>) -> nat {
    (forest(nodes).len() - nodes.len()) as nat
}

/// A node that is appended does not change what the nodes before it spread to.
pub proof fn lemma_spread_push(nodes: Seq<Node>, last: Node, n: nat)
    requires
        n <= nodes.len(),
    ensures
        spread(nodes.push(last), n) == spread(nodes, n),
    decreases n,
{
    if n > 0 {
        lemma_spread_push(nodes, last, (n - 1) as nat);
        assert(nodes.push(last)[n - 1] == nodes[n - 1]);
    }
}

/// The forest of a sequence with one more root.
pub proof fn lemma_forest_push(nodes: Seq<Node>, last: Node)
    ensures
        forest(nodes.push(last)) == forest(nodes).push(last) + last.below(),
{
    lemma_spread_push(nodes, last, nodes.len());
    assert(nodes.push(last)[nodes.len() as int] == last);
}

/// The forest of two sequences of roots, one after the other.
pub proof fn lemma_forest_add(a: Seq<Node>, b: Seq<Node>)
    ensures
        forest(a + b) == forest(a) + forest(b),
    decreases b.len(),
{
    if b.len() == 0 {
        assert(a + b =~= a);
        assert(forest(a) + forest(b) =~= forest(a));
    } else {
        let front = b.drop_last();
        lemma_forest_add(a, front);
        lemma_forest_push(a + front, b.last());
        lemma_forest_push(front, b.last());
        assert((a + front).push(b.last()) =~= a + b);
        assert(front.push(b.last()) =~= b);
        assert((forest(a) + forest(front)).push(b.last()) + b.last().below() =~= forest(a) + (
        forest(front).push(b.last()) + b.last().below()));
    }
}

/// The forest of a single root: the root, then what is below it.
pub proof fn lemma_forest_one(node: Node)
    ensures
        forest(seq![node]) == seq![node] + node.below(),
{
    lemma_forest_push(Seq::empty(), node);
    assert(Seq::<Node>::empty().push(node) =~= seq![node]);
    assert(forest(Seq::<Node>::empty()).push(node) =~= seq![node]);
}

/// The forest of a sequence of roots, split after the first.
pub proof fn lemma_forest_first(nodes: Seq<Node>)
    requires
        nodes.len() > 0,
    ensures
        forest(nodes) == seq![nodes[0]] + nodes[0].below() + forest(nodes.drop_first()),
{
    lemma_forest_add(seq![nodes[0]], nodes.drop_first());
    lemma_forest_one(nodes[0]);
    assert(seq![nodes[0]] + nodes.drop_first() =~= nodes);
}

/// A forest is at least as long as its roots are many.
pub proof fn lemma_forest_len(nodes: Seq<Node>)
    ensures
        forest(nodes).len() >= nodes.len(),
    decreases nodes.len(),
{
    if nodes.len() > 0 {
        lemma_forest_len(nodes.drop_last());
        lemma_forest_push(nodes.drop_last(), nodes.last());
        assert(nodes.drop_last().push(nodes.last()) =~= nodes);
    }
}

/// The directories of a sequence of roots span no more than all the roots.
pub proof fn lemma_filter_forest_len(nodes: Seq<Node>)
    ensures
        forest(dir_nodes(nodes)).len() <= forest(nodes).len(),
    decreases nodes.len(),
{
    let keep = |n: Node| n is Dir;
    if nodes.len() == 0 {
        assert(dir_nodes(nodes) =~= Seq::empty()) by {
            broadcast use vstd::seq_lib::group_filter_ensures;

        }
    } else {
        let front = nodes.drop_last();
        let last = nodes.last();
        assert(front.push(last) =~= nodes);
        lemma_filter_forest_len(front);
        front.lemma_filter_push(last, keep);
        lemma_forest_push(front, last);
        if last is Dir {
            lemma_forest_push(dir_nodes(front), last);
        }
    }
}

/// Leaving the files out of a sequence of roots keeps what is below the
/// roots: nothing is below a file.
pub proof fn lemma_dir_nodes(nodes: Seq<Node>)
    requires
        all_wf(nodes),
    ensures
        all_wf(dir_nodes(nodes)),
        all_dirs(dir_nodes(nodes)),
        dir_nodes(nodes).len() <= nodes.len(),
        entries_under(dir_nodes(nodes)) == entries_under(nodes),
    decreases nodes.len(),
{
    let keep = |n: Node| n is Dir;
    if nodes.len() == 0 {
        assert(dir_nodes(nodes) =~= Seq::empty()) by {
            broadcast use vstd::seq_lib::group_filter_ensures;

        }
    } else {
        let front = nodes.drop_last();
        let last = nodes.last();
        assert(front.push(last) =~= nodes);
        assert(all_wf(front));
        lemma_dir_nodes(front);
        front.lemma_filter_push(last, keep);
        lemma_forest_push(front, last);
        lemma_forest_len(front);
        lemma_forest_len(dir_nodes(front));
        if last is Dir {
            lemma_forest_push(dir_nodes(front), last);
            assert(dir_nodes(nodes) == dir_nodes(front).push(last));
        } else {
            assert(last.below() =~= Seq::empty());
            assert(dir_nodes(nodes) == dir_nodes(front));
        }
    }
}

/// The files with the hash `digest` among the nodes `nodes` themselves.
pub open spec fn hits(nodes: Seq<Node>, digest: u128) -> Multiset<EntryView> {
    entries_of(nodes.filter(|n: Node| n.is_hit(digest))).to_multiset()
}

/// The hits of two sequences, one after the other, are the hits of both.
pub proof fn lemma_hits_add(a: Seq<Node>, b: Seq<Node>, digest: u128)
    ensures
        hits(a + b, digest) == hits(a, digest).add(hits(b, digest)),
{
    let keep = |n: Node| n.is_hit(digest);
    Seq::filter_distributes_over_add(a, b, keep);
    assert(entries_of(a.filter(keep) + b.filter(keep)) =~= entries_of(a.filter(keep))
        + entries_of(b.filter(keep)));
    vstd::seq_lib::lemma_multiset_commutative(
        entries_of(a.filter(keep)),
        entries_of(b.filter(keep)),
    );
}

/// The hits of a single node.
pub proof fn lemma_hits_one(node: Node, digest: u128)
    ensures
        hits(seq![node], digest) == if node.is_hit(digest) {
            Multiset::singleton(node.entry())
        } else {
            Multiset::empty()
        },
{
    broadcast use vstd::seq_lib::group_to_multiset_ensures;

    let keep = |n: Node| n.is_hit(digest);
    Seq::<Node>::empty().lemma_filter_push(node, keep);
    assert(Seq::<Node>::empty().push(node) =~= seq![node]);
    assert(Seq::<Node>::empty().filter(keep) =~= Seq::empty()) by {
        broadcast use vstd::seq_lib::group_filter_ensures;

    }
    if node.is_hit(digest) {
        assert(entries_of(seq![node].filter(keep)) =~= Seq::<EntryView>::empty().push(
            node.entry(),
        ));
        assert(Seq::<EntryView>::empty().to_multiset() =~= Multiset::empty());
    } else {
        assert(entries_of(seq![node].filter(keep)) =~= Seq::<EntryView>::empty());
    }
}

/// The holders in two sequences of trees, one after the other.
pub proof fn lemma_holders_add(a: Seq<Node>, b: Seq<Node>, digest: u128)
    ensures
        holders_in(a + b, digest) == holders_in(a, digest).add(holders_in(b, digest)),
{
    lemma_forest_add(a, b);
    lemma_hits_add(forest(a), forest(b), digest);
}

/// The holders in one tree: the root itself if it is a file with that hash,
/// and for a directory the holders in what it holds.
pub proof fn lemma_holders_one(node: Node, digest: u128)
    ensures
        holders_in(seq![node], digest) == if node is Dir {
            holders_in(node.children(), digest)
        } else if node.is_hit(digest) {
            Multiset::singleton(node.entry())
        } else {
            Multiset::empty()
        },
{
    lemma_forest_one(node);
    lemma_hits_add(seq![node], node.below(), digest);
    lemma_hits_one(node, digest);
    if node is Dir {
        assert(node.below() == forest(node.children()));
        assert(Multiset::<EntryView>::empty().add(hits(node.below(), digest)) =~= hits(
            node.below(),
            digest,
        ));
    } else {
        assert(node.below() =~= Seq::empty());
        assert(seq![node] + node.below() =~= seq![node]);
    }
}

/// The holders in a sequence of trees, split after the first.
pub proof fn lemma_holders_first(nodes: Seq<Node>, digest: u128)
    requires
        nodes.len() > 0,
    ensures
        holders_in(nodes, digest) == holders_in(seq![nodes[0]], digest).add(
            holders_in(nodes.drop_first(), digest),
        ),
{
    lemma_holders_add(seq![nodes[0]], nodes.drop_first(), digest);
    assert(seq![nodes[0]] + nodes.drop_first() =~= nodes);
}

/// The holders in a sequence of trees with one more tree at its end.
pub proof fn lemma_holders_push(nodes: Seq<Node>, last: Node, digest: u128)
    ensures
        holders_in(nodes.push(last), digest) == holders_in(nodes, digest).add(
            holders_in(seq![last], digest),
        ),
{
    lemma_holders_add(nodes, seq![last], digest);
    assert(nodes + seq![last] =~= nodes.push(last));
}

/// No file is held where there is no tree.
pub proof fn lemma_holders_none(digest: u128)
    ensures
        holders_in(Seq::empty(), digest) == Multiset::<EntryView>::empty(),
{
    assert(forest(Seq::<Node>::empty()) =~= Seq::empty());
    assert(Seq::<Node>::empty().filter(|n: Node| n.is_hit(digest)) =~= Seq::empty()) by {
        broadcast use vstd::seq_lib::group_filter_ensures;

    }
    assert(entries_of(Seq::<Node>::empty()) =~= Seq::empty());
    assert(Seq::<EntryView>::empty().to_multiset() =~= Multiset::empty()) by {
        broadcast use vstd::seq_lib::group_to_multiset_ensures;

    }
}

/// The holders in a sequence of trees are the files with that hash among
/// the roots and the holders in the trees of the directories among them.
pub proof fn lemma_holders_split(nodes: Seq<Node>, digest: u128)
    ensures
        holders_in(nodes, digest) == hits(nodes, digest).add(
            holders_in(dir_nodes(nodes), digest),
        ),
    decreases nodes.len(),
{
    let keep = |n: Node| n is Dir;
    let hit = |n: Node| n.is_hit(digest);
    if nodes.len() == 0 {
        broadcast use vstd::seq_lib::group_filter_ensures;

        assert(dir_nodes(nodes) =~= Seq::empty());
        assert(nodes =~= Seq::empty());
        lemma_holders_none(digest);
        assert(nodes.filter(hit) =~= Seq::empty());
        assert(hits(nodes, digest) =~= Multiset::empty()) by {
            broadcast use vstd::seq_lib::group_to_multiset_ensures;

            assert(entries_of(nodes.filter(hit)) =~= Seq::empty());
        }
        assert(Multiset::<EntryView>::empty().add(Multiset::empty()) =~= Multiset::empty());
    } else {
        let front = nodes.drop_last();
        let last = nodes.last();
        assert(front.push(last) =~= nodes);
        assert(front + seq![last] =~= nodes);
        lemma_holders_split(front, digest);
        lemma_holders_push(front, last, digest);
        lemma_holders_one(last, digest);
        lemma_hits_add(front, seq![last], digest);
        lemma_hits_one(last, digest);
        front.lemma_filter_push(last, keep);
        if last is Dir {
            lemma_holders_push(dir_nodes(front), last, digest);
            assert(holders_in(nodes, digest) =~= hits(nodes, digest).add(
                holders_in(dir_nodes(nodes), digest),
            ));
        } else {
            assert(holders_in(nodes, digest) =~= hits(nodes, digest).add(
                holders_in(dir_nodes(nodes), digest),
            ));
        }
    }
}

/// The steps that the trees `nodes` still ask of a walk that has not seen
/// them: one for every file, which is reported, and three for every
/// directory, which is reported, claimed and completed.
pub open spec fn steps_in(nodes: Seq<Node>) -> nat {
    forest(nodes).len() + 2 * dir_nodes(forest(nodes)).len()
}

/// The steps in two sequences of trees, one after the other.
pub proof fn lemma_steps_add(a: Seq<Node>, b: Seq<Node>)
    ensures
        steps_in(a + b) == steps_in(a) + steps_in(b),
{
    lemma_forest_add(a, b);
    Seq::filter_distributes_over_add(forest(a), forest(b), |n: Node| n is Dir);
}

/// The steps in one tree: one for a file, and for a directory three beside
/// the steps in what it holds.
pub proof fn lemma_steps_one(node: Node)
    ensures
        steps_in(seq![node]) == if node is Dir {
            3 + steps_in(node.children())
        } else {
            1
        },
{
    let keep = |n: Node| n is Dir;
    lemma_forest_one(node);
    Seq::filter_distributes_over_add(seq![node], node.below(), keep);
    Seq::<Node>::empty().lemma_filter_push(node, keep);
    assert(Seq::<Node>::empty().push(node) =~= seq![node]);
    assert(Seq::<Node>::empty().filter(keep) =~= Seq::empty()) by {
        broadcast use vstd::seq_lib::group_filter_ensures;

    }
    if node is Dir {
        assert(node.below() == forest(node.children()));
    } else {
        assert(node.below() =~= Seq::empty());
        assert(node.below().filter(keep) =~= Seq::empty()) by {
            broadcast use vstd::seq_lib::group_filter_ensures;

        }
    }
}

/// The steps in a sequence of trees, split after the first.
pub proof fn lemma_steps_first(nodes: Seq<Node>)
    requires
        nodes.len() > 0,
    ensures
        steps_in(nodes) == steps_in(seq![nodes[0]]) + steps_in(nodes.drop_first()),
{
    lemma_steps_add(seq![nodes[0]], nodes.drop_first());
    assert(seq![nodes[0]] + nodes.drop_first() =~= nodes);
}

/// The steps in a sequence of trees with one more tree at its end.
pub proof fn lemma_steps_push(nodes: Seq<Node>, last: Node)
    ensures
        steps_in(nodes.push(last)) == steps_in(nodes) + steps_in(seq![last]),
{
    lemma_steps_add(nodes, seq![last]);
    assert(nodes + seq![last] =~= nodes.push(last));
}

/// Trees ask for at least one step each.
pub proof fn lemma_steps_at_least(nodes: Seq<Node>)
    ensures
        steps_in(nodes) >= nodes.len(),
{
    lemma_forest_len(nodes);
}

} // verus!
