//! The tree nodes: leaves holding sorted entry runs, internal nodes holding
//! ordered children with cached boundary keys, and the structural lemmas
//! that connect a node to the run of entries it stands for.

use vstd::prelude::*;

use crate::insert_or_split;
use crate::internal::find_idx;
use crate::leaf::query_idx;
use crate::model::insert_sorted;
use crate::model::lemma_insert_sorted_prefix;
use crate::model::lemma_insert_sorted_replaces;
use crate::model::lemma_insert_sorted_sorted;
use crate::model::lemma_insert_sorted_suffix;
use crate::model::lemma_seq_get_index;
use crate::model::lemma_seq_get_prefix;
use crate::model::lemma_seq_get_some;
use crate::model::lemma_remove_key_prefix;
use crate::model::lemma_remove_key_suffix;
use crate::model::lemma_remove_key_sorted;
use crate::model::lemma_seq_get_suffix;
use crate::model::remove_key;
use crate::model::seq_get;
use crate::model::strictly_sorted;

verus! {

/// A node capacity is usable when it is odd and large enough to leave both
/// halves of a split at the minimum fill.
pub open spec fn cap_valid(cap: int) -> bool {
    cap % 2 == 1 && cap > 3
}

/// The minimum fill of a non-root node.
pub open spec fn min_fill(cap: int) -> int {
    cap / 2 + 1
}

/// A leaf: a sorted, capacity-bounded run of key-value entries.
pub struct Leaf<V, const CAP: usize> {
    pub entries: Vec<(u64, V)>,
}

/// An internal node: an ordered run of children plus the cached first and
/// last key of its whole subtree.
pub struct Internal<V, const CAP: usize> {
    pub head: u64,
    pub tail: u64,
    pub children: Vec<Node<V, CAP>>,
}

/// A tree node: either a leaf or an internal node.
pub enum Node<V, const CAP: usize> {
    Leaf(Leaf<V, CAP>),
    Internal(Internal<V, CAP>),
}

/// The entries of a run of sibling nodes, concatenated in order.
pub open spec fn entries_of<V, const CAP: usize>(s: Seq<Node<V, CAP>>) -> Seq<(u64, V)>
    decreases s,
{
    if s.len() == 0 {
        Seq::empty()
    } else {
        s[0].entries() + entries_of(s.drop_first())
    }
}

impl<V, const CAP: usize> Node<V, CAP> {
    /// How many entries (for a leaf) or children (for an internal node)
    /// this node holds directly.
    pub open spec fn count(self) -> nat {
        match self {
            Node::Leaf(leaf) => leaf.entries@.len(),
            Node::Internal(inner) => inner.children@.len(),
        }
    }

    /// Distance from this node down to its leaves.
    pub open spec fn height(self) -> nat
        decreases self,
    {
        match self {
            Node::Leaf(_) => 0,
            Node::Internal(inner) => {
                if inner.children@.len() == 0 {
                    1
                } else {
                    1 + inner.children@[0].height()
                }
            },
        }
    }

    /// All entries of the subtree, in tree order.
    pub open spec fn entries(self) -> Seq<(u64, V)>
        decreases self,
    {
        match self {
            Node::Leaf(leaf) => leaf.entries@,
            Node::Internal(inner) => entries_of(inner.children@),
        }
    }

    /// The first key of the subtree, read structurally.
    pub open spec fn first_key(self) -> u64
        decreases self,
    {
        match self {
            Node::Leaf(leaf) => leaf.entries@.first().0,
            Node::Internal(inner) => {
                if inner.children@.len() == 0 {
                    inner.head
                } else {
                    inner.children@.first().first_key()
                }
            },
        }
    }

    /// The last key of the subtree, read structurally.
    pub open spec fn last_key(self) -> u64
        decreases self,
    {
        match self {
            Node::Leaf(leaf) => leaf.entries@.last().0,
            Node::Internal(inner) => {
                if inner.children@.len() == 0 {
                    inner.tail
                } else {
                    inner.children@.last().last_key()
                }
            },
        }
    }

    /// Well-formedness. A leaf is sorted and within capacity. An internal
    /// node holds between one and `CAP` children, all well-formed, all at
    /// or above the minimum fill, all of one height, in strictly increasing
    /// key order, with `head` and `tail` caching the boundary keys of the
    /// subtree. The node's own fill floor is not part of this predicate:
    /// the parent — or the map facade, for the root — imposes it.
    pub open spec fn inv(self) -> bool
        decreases self,
    {
        cap_valid(CAP as int) && match self {
            Node::Leaf(leaf) => leaf.entries@.len() <= CAP && strictly_sorted(leaf.entries@),
            Node::Internal(inner) => {
                &&& 1 <= inner.children@.len() <= CAP
                &&& forall|i: int|
                    0 <= i < inner.children@.len() ==> (#[trigger] inner.children@[i]).inv()
                &&& kids_wf(inner.children@)
                &&& inner.head == inner.children@[0].first_key()
                &&& inner.tail == inner.children@[inner.children@.len() - 1].last_key()
            },
        }
    }
}

/// What an internal node requires of its children run: each child
/// well-formed and at or above the minimum fill, all of one height, and
/// adjacent children separated in key order.
#[verifier::opaque]
pub open spec fn kids_wf<V, const CAP: usize>(s: Seq<Node<V, CAP>>) -> bool {
    &&& forall|i: int| 0 <= i < s.len() ==> (#[trigger] s[i]).count() >= min_fill(CAP as int)
    &&& forall|i: int| 0 <= i < s.len() ==> (#[trigger] s[i]).height() == s[0].height()
    &&& forall|i: int|
        0 <= i < s.len() - 1 ==> (#[trigger] s[i]).last_key() < s[i + 1].first_key()
}

/// Every node strictly below this one holds between the minimum fill and
/// the capacity.
pub open spec fn sub_fill_ok<V, const CAP: usize>(n: Node<V, CAP>) -> bool
    decreases n,
{
    match n {
        Node::Leaf(_) => true,
        Node::Internal(inner) => forall|i: int|
            0 <= i < inner.children@.len() ==> min_fill(CAP as int) <= (
            #[trigger] inner.children@[i]).count() <= CAP && sub_fill_ok(inner.children@[i]),
    }
}

/// In every internal node of this subtree, `head` and `tail` equal the
/// first and last key of the node's run of entries.
pub open spec fn caches_ok<V, const CAP: usize>(n: Node<V, CAP>) -> bool
    decreases n,
{
    match n {
        Node::Leaf(_) => true,
        Node::Internal(inner) => {
            &&& inner.head == entries_of(inner.children@).first().0
            &&& inner.tail == entries_of(inner.children@).last().0
            &&& forall|i: int|
                0 <= i < inner.children@.len() ==> caches_ok(#[trigger] inner.children@[i])
        },
    }
}

/// How a removal that descended into child `idx` reshapes an internal
/// node's children. Either the shrunk child kept the minimum fill and
/// nothing else moved; or it was rebalanced against its left neighbour —
/// its right neighbour when it is the first child — by moving exactly one
/// element across; or, when the donor had none to spare, by draining the
/// right member of the pair into the left and dropping it.
pub open spec fn removal_shape<V, const CAP: usize>(
    oc: Seq<Node<V, CAP>>,
    nc: Seq<Node<V, CAP>>,
    idx: int,
) -> bool {
    let li = if idx == 0 {
        0int
    } else {
        idx - 1
    };
    ||| {
        &&& nc.len() == oc.len()
        &&& forall|j: int| 0 <= j < nc.len() && j != idx ==> nc[j] == oc[j]
        &&& oc[idx].count() - 1 <= nc[idx].count() <= oc[idx].count()
        &&& min_fill(CAP as int) <= nc[idx].count()
    }
    ||| {
        &&& nc.len() == oc.len()
        &&& li + 1 < oc.len()
        &&& forall|j: int| 0 <= j < nc.len() && j != li && j != li + 1 ==> nc[j] == oc[j]
        &&& (if idx == 0 {
            nc[0].count() == min_fill(CAP as int) && nc[1].count() == oc[1].count() - 1
        } else {
            nc[idx].count() == min_fill(CAP as int) && nc[li].count() == oc[li].count() - 1
        })
    }
    ||| {
        &&& nc.len() == oc.len() - 1
        &&& li + 1 < oc.len()
        &&& forall|j: int| 0 <= j < li ==> nc[j] == oc[j]
        &&& forall|j: int| li < j < nc.len() ==> nc[j] == oc[j + 1]
        &&& nc[li].count() == oc[li].count() + oc[li + 1].count() - 1
    }
}

/// The shape a removal of `query` leaves an internal node's children in,
/// tied to the child the query's position selects.
pub open spec fn removal_at<V, const CAP: usize>(
    oc: Seq<Node<V, CAP>>,
    nc: Seq<Node<V, CAP>>,
    query: u64,
    i: int,
) -> bool {
    &&& 0 <= i < oc.len()
    &&& (i == 0 || oc[i].first_key() <= query)
    &&& (i + 1 < oc.len() ==> query < oc[i + 1].first_key())
    &&& removal_shape(oc, nc, i)
}

/// A well-formed node keeps every node below it between the minimum fill
/// and the capacity.
pub proof fn lemma_inv_fill<V, const CAP: usize>(n: Node<V, CAP>)
    requires
        n.inv(),
    ensures
        sub_fill_ok(n),
    decreases n,
{
    match n {
        Node::Leaf(_) => {},
        Node::Internal(inner) => {
            lemma_kids_run_wf(inner.children@);
            assert forall|i: int|
                0 <= i < inner.children@.len() implies min_fill(CAP as int) <= (
                #[trigger] inner.children@[i]).count() <= CAP && sub_fill_ok(
                inner.children@[i],
            ) by {
                lemma_inv_fill(inner.children@[i]);
            }
        },
    }
}

/// A well-formed node keeps every boundary cache below it equal to the
/// first or last key of the subtree it belongs to.
pub proof fn lemma_inv_caches<V, const CAP: usize>(n: Node<V, CAP>)
    requires
        n.inv(),
        n.count() >= 1,
    ensures
        caches_ok(n),
    decreases n,
{
    match n {
        Node::Leaf(_) => {},
        Node::Internal(inner) => {
            lemma_kids_run_wf(inner.children@);
            lemma_node_bounds(n);
            assert forall|i: int| 0 <= i < inner.children@.len() implies caches_ok(
                #[trigger] inner.children@[i],
            ) by {
                lemma_inv_caches(inner.children@[i]);
            }
        },
    }
}

/// The facts `find_idx` needs of a run of siblings: each node well-formed
/// and non-empty, and the runs of adjacent nodes separated in key order.
pub open spec fn run_wf<V, const CAP: usize>(s: Seq<Node<V, CAP>>) -> bool {
    &&& forall|i: int| 0 <= i < s.len() ==> (#[trigger] s[i]).inv()
    &&& forall|i: int| 0 <= i < s.len() ==> (#[trigger] s[i]).count() >= 1
    &&& forall|i: int|
        0 <= i < s.len() - 1 ==> (#[trigger] s[i]).last_key() < s[i + 1].first_key()
}

/// Concatenation of runs of siblings concatenates their entries.
pub proof fn lemma_entries_of_concat<V, const CAP: usize>(
    a: Seq<Node<V, CAP>>,
    b: Seq<Node<V, CAP>>,
)
    ensures
        entries_of(a + b) == entries_of(a) + entries_of(b),
    decreases a.len(),
{
    if a.len() == 0 {
        assert(a + b =~= b);
        assert(entries_of(a) + entries_of(b) =~= entries_of(b));
    } else {
        assert((a + b).drop_first() =~= a.drop_first() + b);
        lemma_entries_of_concat(a.drop_first(), b);
        assert((a + b)[0] == a[0]);
        assert(a[0].entries() + (entries_of(a.drop_first()) + entries_of(b)) =~= (a[0].entries()
            + entries_of(a.drop_first())) + entries_of(b));
    }
}

/// The entries of a run split at any position into the entries before it,
/// the entries of the node there, and the entries after it.
pub proof fn lemma_entries_of_split<V, const CAP: usize>(s: Seq<Node<V, CAP>>, i: int)
    requires
        0 <= i < s.len(),
    ensures
        entries_of(s) == entries_of(s.subrange(0, i)) + s[i].entries() + entries_of(
            s.subrange(i + 1, s.len() as int),
        ),
{
    let a = s.subrange(0, i);
    let m = s.subrange(i, i + 1);
    let b = s.subrange(i + 1, s.len() as int);
    assert(s =~= a + m + b);
    lemma_entries_of_concat(a + m, b);
    lemma_entries_of_concat(a, m);
    assert(m.drop_first() =~= Seq::<Node<V, CAP>>::empty());
    assert(entries_of(m) == m[0].entries() + entries_of(m.drop_first()));
    assert(m[0].entries() + Seq::<(u64, V)>::empty() =~= m[0].entries());
    assert(m[0] == s[i]);
}

/// A well-formed, non-empty node stands for a non-empty sorted run whose
/// first and last keys are the node's boundary keys.
pub proof fn lemma_node_bounds<V, const CAP: usize>(n: Node<V, CAP>)
    requires
        n.inv(),
        n.count() >= 1,
    ensures
        n.entries().len() >= n.count(),
        n.entries().len() >= 1,
        strictly_sorted(n.entries()),
        n.entries().first().0 == n.first_key(),
        n.entries().last().0 == n.last_key(),
        forall|i: int|
            0 <= i < n.entries().len() ==> n.first_key() <= (#[trigger] n.entries()[i]).0
                <= n.last_key(),
    decreases n,
{
    match n {
        Node::Leaf(_) => {},
        Node::Internal(inner) => {
            lemma_kids_run_wf(inner.children@);
            lemma_run_bounds(inner.children@);
        },
    }
}

/// The run version of the boundary lemma, for a separated run of siblings.
pub proof fn lemma_run_bounds<V, const CAP: usize>(s: Seq<Node<V, CAP>>)
    requires
        s.len() >= 1,
        run_wf(s),
    ensures
        entries_of(s).len() >= s.len(),
        strictly_sorted(entries_of(s)),
        entries_of(s).first().0 == s.first().first_key(),
        entries_of(s).last().0 == s.last().last_key(),
        forall|i: int|
            0 <= i < entries_of(s).len() ==> s.first().first_key() <= (#[trigger] entries_of(
                s,
            )[i]).0 <= s.last().last_key(),
    decreases s,
{
    lemma_node_bounds(s[0]);
    if s.len() == 1 {
        assert(entries_of(s.drop_first()) =~= Seq::<(u64, V)>::empty());
        assert(s[0].entries() + Seq::<(u64, V)>::empty() =~= s[0].entries());
    } else {
        let rest = s.drop_first();
        assert(run_wf(rest)) by {
            assert(forall|i: int| 0 <= i < rest.len() ==> rest[i] == s[i + 1]);
        }
        lemma_run_bounds(rest);
        let ea = s[0].entries();
        let eb = entries_of(rest);
        assert(rest.first() == s[1]);
        assert(rest.last() == s.last());
        assert(s[0].last_key() < s[1].first_key());
        assert(forall|i: int, j: int|
            0 <= i < ea.len() && 0 <= j < eb.len() ==> (#[trigger] ea[i]).0 < (#[trigger] eb[j]).0);
        assert(forall|i: int|
            0 <= i < entries_of(s).len() ==> entries_of(s)[i] == (ea + eb)[i]);
        assert(entries_of(s).last() == eb.last());
        assert(entries_of(s).first() == ea.first());
    }
}

/// When a child is picked so that keys at or above the query start no later
/// than it and keys of later children lie strictly above the query, every
/// entry before the child is below the query and every entry after it is
/// above the query.
#[verifier::rlimit(100)]
pub proof fn lemma_key_in_run<V, const CAP: usize>(s: Seq<Node<V, CAP>>, idx: int, q: u64)
    requires
        run_wf(s),
        0 <= idx < s.len(),
        idx == 0 || s[idx].first_key() <= q,
        idx + 1 < s.len() ==> q < s[idx + 1].first_key(),
    ensures
        entries_of(s) == entries_of(s.subrange(0, idx)) + s[idx].entries() + entries_of(
            s.subrange(idx + 1, s.len() as int),
        ),
        forall|i: int|
            0 <= i < entries_of(s.subrange(0, idx)).len() ==> (#[trigger] entries_of(
                s.subrange(0, idx),
            )[i]).0 < q,
        forall|i: int|
            0 <= i < entries_of(s.subrange(idx + 1, s.len() as int)).len() ==> (
            #[trigger] entries_of(s.subrange(idx + 1, s.len() as int))[i]).0 > q,
{
    lemma_entries_of_split(s, idx);
    let a = s.subrange(0, idx);
    let b = s.subrange(idx + 1, s.len() as int);
    if idx > 0 {
        assert(run_wf(a)) by {
            assert(forall|i: int| 0 <= i < a.len() ==> a[i] == s[i]);
        }
        lemma_run_bounds(a);
        assert(a.last() == s[idx - 1]);
        assert(s[idx - 1].last_key() < s[idx].first_key());
        assert forall|i: int| 0 <= i < entries_of(a).len() implies (#[trigger] entries_of(
            a,
        )[i]).0 < q by {
            assert(entries_of(a)[i].0 <= a.last().last_key());
        }
    } else {
        assert(entries_of(a) =~= Seq::<(u64, V)>::empty());
    }
    if idx + 1 < s.len() {
        assert(run_wf(b)) by {
            assert(forall|i: int| 0 <= i < b.len() ==> b[i] == s[idx + 1 + i]);
        }
        lemma_run_bounds(b);
        assert(b.first() == s[idx + 1]);
        assert(s[idx].last_key() < s[idx + 1].first_key());
        assert forall|i: int| 0 <= i < entries_of(b).len() implies (#[trigger] entries_of(
            b,
        )[i]).0 > q by {
            assert(entries_of(b)[i].0 >= b.first().first_key());
        }
    } else {
        assert(entries_of(b) =~= Seq::<(u64, V)>::empty());
    }
}

/// In a separated run, the last key of an earlier node lies below the first
/// key of any later node, adjacent or not.
pub proof fn lemma_run_sep<V, const CAP: usize>(s: Seq<Node<V, CAP>>, i: int, j: int)
    requires
        run_wf(s),
        0 <= i < j < s.len(),
    ensures
        s[i].last_key() < s[j].first_key(),
    decreases j - i,
{
    if j == i + 1 {
    } else {
        lemma_run_sep(s, i, j - 1);
        lemma_node_bounds(s[j - 1]);
    }
}

/// A run fit to stand under an internal node is in particular a run
/// `find_idx` can search.
pub proof fn lemma_kids_run_wf<V, const CAP: usize>(s: Seq<Node<V, CAP>>)
    requires
        cap_valid(CAP as int),
        kids_wf(s),
        forall|i: int| 0 <= i < s.len() ==> (#[trigger] s[i]).inv(),
    ensures
        run_wf(s),
        forall|i: int| 0 <= i < s.len() ==> (#[trigger] s[i]).count() >= min_fill(CAP as int),
        forall|i: int| 0 <= i < s.len() ==> (#[trigger] s[i]).height() == s[0].height(),
{
    reveal(kids_wf);
}

/// Replacing one node of a run replaces its entries in place.
pub proof fn lemma_entries_update<V, const CAP: usize>(
    oc: Seq<Node<V, CAP>>,
    idx: int,
    cnew: Node<V, CAP>,
)
    requires
        0 <= idx < oc.len(),
    ensures
        entries_of(oc.update(idx, cnew)) == entries_of(oc.subrange(0, idx)) + cnew.entries()
            + entries_of(oc.subrange(idx + 1, oc.len() as int)),
{
    let nc = oc.update(idx, cnew);
    lemma_entries_of_split(nc, idx);
    assert(nc.subrange(0, idx) =~= oc.subrange(0, idx));
    assert(nc.subrange(idx + 1, oc.len() as int) =~= oc.subrange(idx + 1, oc.len() as int));
}

/// Replacing one node of a run by two adjacent nodes splices their entries
/// in place.
pub proof fn lemma_entries_update_insert<V, const CAP: usize>(
    oc: Seq<Node<V, CAP>>,
    idx: int,
    cnew: Node<V, CAP>,
    sibv: Node<V, CAP>,
)
    requires
        0 <= idx < oc.len(),
    ensures
        entries_of(oc.update(idx, cnew).insert(idx + 1, sibv)) == entries_of(
            oc.subrange(0, idx),
        ) + (cnew.entries() + sibv.entries()) + entries_of(
            oc.subrange(idx + 1, oc.len() as int),
        ),
{
    let run2 = oc.update(idx, cnew).insert(idx + 1, sibv);
    let a = oc.subrange(0, idx);
    let b = oc.subrange(idx + 1, oc.len() as int);
    let mid = seq![cnew, sibv];
    assert(run2 =~= a + mid + b);
    lemma_entries_of_concat(a + mid, b);
    lemma_entries_of_concat(a, mid);
    assert(entries_of(mid) == mid[0].entries() + entries_of(mid.drop_first()));
    assert(mid.drop_first() =~= seq![sibv]);
    assert(entries_of(seq![sibv]) == seq![sibv][0].entries() + entries_of(
        seq![sibv].drop_first(),
    ));
    assert(seq![sibv].drop_first() =~= Seq::<Node<V, CAP>>::empty());
    assert(sibv.entries() + Seq::<(u64, V)>::empty() =~= sibv.entries());
    assert(entries_of(run2) == (entries_of(a) + (cnew.entries() + sibv.entries())) + entries_of(
        b,
    ));
    assert((entries_of(a) + (cnew.entries() + sibv.entries())) + entries_of(b) =~= entries_of(a)
        + (cnew.entries() + sibv.entries()) + entries_of(b));
}

/// Where the query key stands relative to the run's outer boundary keys,
/// given which child was selected for it.
pub proof fn lemma_run_outer<V, const CAP: usize>(oc: Seq<Node<V, CAP>>, idx: int, key: u64)
    requires
        cap_valid(CAP as int),
        kids_wf(oc),
        forall|i: int| 0 <= i < oc.len() ==> (#[trigger] oc[i]).inv(),
        0 <= idx < oc.len(),
        idx == 0 || oc[idx].first_key() <= key,
        idx + 1 < oc.len() ==> key < oc[idx + 1].first_key(),
    ensures
        idx > 0 ==> oc[0].first_key() <= key,
        idx + 1 < oc.len() ==> key < oc.last().last_key(),
{
    lemma_kids_run_wf(oc);
    if idx > 0 {
        lemma_node_bounds(oc[0]);
        lemma_run_sep(oc, 0, idx);
    }
    if idx + 1 < oc.len() {
        lemma_node_bounds(oc[idx + 1]);
        lemma_node_bounds(oc[oc.len() - 1]);
        if idx + 1 < oc.len() - 1 {
            lemma_run_sep(oc, idx + 1, oc.len() - 1);
        }
    }
}

/// After an in-place child update whose boundary keys moved at most out to
/// the inserted key, the children run is again fit to stand under an
/// internal node, and its outer boundary keys move the same way.
pub proof fn lemma_kids_update<V, const CAP: usize>(
    oc: Seq<Node<V, CAP>>,
    idx: int,
    cnew: Node<V, CAP>,
    key: u64,
)
    requires
        cap_valid(CAP as int),
        kids_wf(oc),
        forall|i: int| 0 <= i < oc.len() ==> (#[trigger] oc[i]).inv(),
        1 <= oc.len(),
        0 <= idx < oc.len(),
        idx == 0 || oc[idx].first_key() <= key,
        idx + 1 < oc.len() ==> key < oc[idx + 1].first_key(),
        cnew.inv(),
        min_fill(CAP as int) <= cnew.count(),
        cnew.height() == oc[idx].height(),
        cnew.first_key() == (if key < oc[idx].first_key() {
            key
        } else {
            oc[idx].first_key()
        }),
        cnew.last_key() == (if key > oc[idx].last_key() {
            key
        } else {
            oc[idx].last_key()
        }),
    ensures
        kids_wf(oc.update(idx, cnew)),
        forall|i: int|
            0 <= i < oc.len() ==> (#[trigger] oc.update(idx, cnew)[i]).inv(),
        oc.update(idx, cnew)[0].height() == oc[0].height(),
        oc.update(idx, cnew)[0].first_key() == (if key < oc[0].first_key() {
            key
        } else {
            oc[0].first_key()
        }),
        oc.update(idx, cnew).last().last_key() == (if key > oc.last().last_key() {
            key
        } else {
            oc.last().last_key()
        }),
{
    let nc = oc.update(idx, cnew);
    lemma_run_outer(oc, idx, key);
    assert(forall|i: int| 0 <= i < nc.len() && i != idx ==> nc[i] == oc[i]);
    assert(nc[idx] == cnew);
    assert(nc[0] == (if idx == 0 {
        cnew
    } else {
        oc[0]
    }));
    assert(nc.last() == (if idx == nc.len() - 1 {
        cnew
    } else {
        oc.last()
    }));
    assert forall|i: int| 0 <= i < nc.len() implies (#[trigger] nc[i]).inv() by {
        if i != idx {
            assert(nc[i] == oc[i]);
        }
    }
    assert(kids_wf(nc)) by {
        reveal(kids_wf);
        assert forall|i: int|
            0 <= i < nc.len() implies (#[trigger] nc[i]).count() >= min_fill(CAP as int)
            && nc[i].height() == nc[0].height() by {
            if i != idx {
                assert(nc[i] == oc[i]);
            }
            if idx == 0 {
                assert(nc[0] == cnew);
                assert(cnew.height() == oc[0].height());
            } else {
                assert(nc[0] == oc[0]);
            }
        }
        assert forall|i: int| 0 <= i < nc.len() - 1 implies (#[trigger] nc[i]).last_key() < nc[i
            + 1].first_key() by {
            if i + 1 == idx {
                assert(nc[i].last_key() == oc[i].last_key());
                assert(oc[i].last_key() < oc[idx].first_key());
                assert(cnew.first_key() == oc[idx].first_key());
            } else if i == idx {
                if i + 1 < oc.len() {
                    assert(nc[i + 1] == oc[i + 1]);
                    assert(oc[idx].last_key() < oc[idx + 1].first_key());
                }
            } else {
                assert(nc[i] == oc[i] && nc[i + 1] == oc[i + 1]);
            }
        }
    }
}

/// The shape half of the splice: fill, height, and separation of the
/// widened run.
#[verifier::rlimit(100)]
proof fn lemma_kids_mid_pair_shape<V, const CAP: usize>(
    oc: Seq<Node<V, CAP>>,
    idx: int,
    r2: Seq<Node<V, CAP>>,
    cnew: Node<V, CAP>,
    sibv: Node<V, CAP>,
    key: u64,
)
    requires
        cap_valid(CAP as int),
        kids_wf(oc),
        1 <= oc.len(),
        0 <= idx < oc.len(),
        idx == 0 || oc[idx].first_key() <= key,
        idx + 1 < oc.len() ==> key < oc[idx + 1].first_key(),
        r2.len() == oc.len() + 1,
        forall|i: int| 0 <= i < idx ==> r2[i] == oc[i],
        r2[idx] == cnew,
        r2[idx + 1] == sibv,
        forall|i: int| idx + 2 <= i < r2.len() ==> r2[i] == oc[i - 1],
        min_fill(CAP as int) <= cnew.count(),
        min_fill(CAP as int) <= sibv.count(),
        cnew.height() == oc[idx].height(),
        sibv.height() == oc[idx].height(),
        cnew.last_key() < sibv.first_key(),
        cnew.first_key() == (if key < oc[idx].first_key() {
            key
        } else {
            oc[idx].first_key()
        }),
        sibv.last_key() == (if key > oc[idx].last_key() {
            key
        } else {
            oc[idx].last_key()
        }),
    ensures
        kids_wf(r2),
{
    assert(kids_wf(r2)) by {
        reveal(kids_wf);
        assert forall|i: int|
            0 <= i < r2.len() implies (#[trigger] r2[i]).count() >= min_fill(CAP as int)
            && r2[i].height() == r2[0].height() by {
            if i < idx {
                assert(r2[i] == oc[i]);
            } else if i >= idx + 2 {
                assert(r2[i] == oc[i - 1]);
            }
            if idx == 0 {
                assert(r2[0] == cnew);
                assert(cnew.height() == oc[0].height());
            } else {
                assert(r2[0] == oc[0]);
            }
        }
        assert forall|i: int| 0 <= i < r2.len() - 1 implies (#[trigger] r2[i]).last_key()
            < r2[i + 1].first_key() by {
            if i + 1 == idx {
                assert(r2[i].last_key() == oc[i].last_key());
                assert(oc[i].last_key() < oc[idx].first_key());
                assert(cnew.first_key() == oc[idx].first_key());
            } else if i == idx + 1 {
                if idx + 1 < oc.len() {
                    assert(r2[i + 1] == oc[idx + 1]);
                    assert(sibv.last_key() < oc[idx + 1].first_key());
                }
            } else if i < idx {
                assert(r2[i] == oc[i] && r2[i + 1] == oc[i + 1]);
            } else if i >= idx + 2 {
                assert(r2[i] == oc[i - 1] && r2[i + 1] == oc[i]);
            }
        }
    }
}

/// A run assembled from a prefix of `oc`, two replacement nodes, and the
/// rest of `oc` is again fit to stand under an internal node, provided the
/// replacements carry the keys the selected child owned plus the one being
/// inserted.
pub proof fn lemma_kids_mid_pair<V, const CAP: usize>(
    oc: Seq<Node<V, CAP>>,
    idx: int,
    r2: Seq<Node<V, CAP>>,
    cnew: Node<V, CAP>,
    sibv: Node<V, CAP>,
    key: u64,
)
    requires
        cap_valid(CAP as int),
        kids_wf(oc),
        forall|i: int| 0 <= i < oc.len() ==> (#[trigger] oc[i]).inv(),
        1 <= oc.len(),
        0 <= idx < oc.len(),
        idx == 0 || oc[idx].first_key() <= key,
        idx + 1 < oc.len() ==> key < oc[idx + 1].first_key(),
        r2.len() == oc.len() + 1,
        forall|i: int| 0 <= i < idx ==> r2[i] == oc[i],
        r2[idx] == cnew,
        r2[idx + 1] == sibv,
        forall|i: int| idx + 2 <= i < r2.len() ==> r2[i] == oc[i - 1],
        cnew.inv(),
        sibv.inv(),
        min_fill(CAP as int) <= cnew.count(),
        min_fill(CAP as int) <= sibv.count(),
        cnew.height() == oc[idx].height(),
        sibv.height() == oc[idx].height(),
        cnew.last_key() < sibv.first_key(),
        cnew.first_key() == (if key < oc[idx].first_key() {
            key
        } else {
            oc[idx].first_key()
        }),
        sibv.last_key() == (if key > oc[idx].last_key() {
            key
        } else {
            oc[idx].last_key()
        }),
    ensures
        kids_wf(r2),
        forall|i: int| 0 <= i < r2.len() ==> (#[trigger] r2[i]).inv(),
        r2[0].height() == oc[0].height(),
{
    assert forall|i: int| 0 <= i < r2.len() implies (#[trigger] r2[i]).inv() by {
        if i < idx {
            assert(r2[i] == oc[i]);
        } else if i >= idx + 2 {
            assert(r2[i] == oc[i - 1]);
        }
    }
    lemma_kids_mid_pair_shape(oc, idx, r2, cnew, sibv, key);
}

/// After a child split, the widened run — the updated child followed by its
/// new sibling — is again fit to stand under an internal node.
pub proof fn lemma_kids_split<V, const CAP: usize>(
    oc: Seq<Node<V, CAP>>,
    idx: int,
    cnew: Node<V, CAP>,
    sibv: Node<V, CAP>,
    key: u64,
)
    requires
        cap_valid(CAP as int),
        kids_wf(oc),
        forall|i: int| 0 <= i < oc.len() ==> (#[trigger] oc[i]).inv(),
        1 <= oc.len(),
        0 <= idx < oc.len(),
        idx == 0 || oc[idx].first_key() <= key,
        idx + 1 < oc.len() ==> key < oc[idx + 1].first_key(),
        cnew.inv(),
        sibv.inv(),
        min_fill(CAP as int) <= cnew.count(),
        min_fill(CAP as int) <= sibv.count(),
        cnew.height() == oc[idx].height(),
        sibv.height() == oc[idx].height(),
        cnew.last_key() < sibv.first_key(),
        cnew.first_key() == (if key < oc[idx].first_key() {
            key
        } else {
            oc[idx].first_key()
        }),
        sibv.last_key() == (if key > oc[idx].last_key() {
            key
        } else {
            oc[idx].last_key()
        }),
    ensures
        kids_wf(oc.update(idx, cnew).insert(idx + 1, sibv)),
        forall|i: int|
            0 <= i < oc.len() + 1 ==> (#[trigger] oc.update(idx, cnew).insert(
                idx + 1,
                sibv,
            )[i]).inv(),
        oc.update(idx, cnew).insert(idx + 1, sibv)[0].height() == oc[0].height(),
        oc.update(idx, cnew).insert(idx + 1, sibv)[0].first_key() == (if key < oc[0].first_key() {
            key
        } else {
            oc[0].first_key()
        }),
        oc.update(idx, cnew).insert(idx + 1, sibv).last().last_key() == (if key
            > oc.last().last_key() {
            key
        } else {
            oc.last().last_key()
        }),
{
    let run2 = oc.update(idx, cnew).insert(idx + 1, sibv);
    assert(run2.len() == oc.len() + 1);
    assert(forall|i: int| 0 <= i < idx ==> run2[i] == oc[i]);
    assert(run2[idx] == cnew);
    assert(run2[idx + 1] == sibv);
    assert(forall|i: int| idx + 2 <= i < run2.len() ==> run2[i] == oc[i - 1]);
    lemma_kids_mid_pair(oc, idx, run2, cnew, sibv, key);
    lemma_run_outer(oc, idx, key);
    assert(run2[0] == (if idx == 0 {
        cnew
    } else {
        oc[0]
    }));
    assert(run2.last() == (if idx + 1 == oc.len() {
        sibv
    } else {
        oc.last()
    }));
}

/// A single node's run of entries.
pub proof fn lemma_entries_of_one<V, const CAP: usize>(n: Node<V, CAP>)
    ensures
        entries_of(seq![n]) == n.entries(),
{
    assert(entries_of(seq![n]) == seq![n][0].entries() + entries_of(seq![n].drop_first()));
    assert(seq![n].drop_first() =~= Seq::<Node<V, CAP>>::empty());
    assert(n.entries() + Seq::<(u64, V)>::empty() =~= n.entries());
}

/// Entries of a run assembled from three pieces.
pub proof fn lemma_entries_of_three<V, const CAP: usize>(
    pre: Seq<Node<V, CAP>>,
    mid: Seq<Node<V, CAP>>,
    post: Seq<Node<V, CAP>>,
)
    ensures
        entries_of(pre + mid + post) == entries_of(pre) + entries_of(mid) + entries_of(post),
{
    lemma_entries_of_concat(pre + mid, post);
    lemma_entries_of_concat(pre, mid);
}

/// Two adjacent runs of siblings, separated at the seam and of one height,
/// concatenate into a run fit to stand under an internal node.
pub proof fn lemma_kids_concat<V, const CAP: usize>(a: Seq<Node<V, CAP>>, b: Seq<Node<V, CAP>>)
    requires
        cap_valid(CAP as int),
        kids_wf(a),
        kids_wf(b),
        forall|i: int| 0 <= i < a.len() ==> (#[trigger] a[i]).inv(),
        forall|i: int| 0 <= i < b.len() ==> (#[trigger] b[i]).inv(),
        a.len() >= 1,
        b.len() >= 1,
        a.last().last_key() < b[0].first_key(),
        a[0].height() == b[0].height(),
    ensures
        kids_wf(a + b),
        forall|i: int| 0 <= i < a.len() + b.len() ==> (#[trigger] (a + b)[i]).inv(),
{
    let c = a + b;
    assert(forall|i: int| 0 <= i < a.len() ==> c[i] == a[i]);
    assert(forall|i: int| a.len() <= i < c.len() ==> c[i] == b[i - a.len()]);
    assert(kids_wf(c)) by {
        reveal(kids_wf);
        assert forall|i: int| 0 <= i < c.len() - 1 implies (#[trigger] c[i]).last_key() < c[i
            + 1].first_key() by {
            if i + 1 == a.len() {
                assert(c[i] == a.last() && c[i + 1] == b[0]);
            } else if i + 1 < a.len() {
                assert(c[i] == a[i] && c[i + 1] == a[i + 1]);
            } else {
                assert(c[i] == b[i - a.len()] && c[i + 1] == b[i + 1 - a.len()]);
            }
        }
    }
}

/// Replacing one node of a run in place by another that holds a subrange
/// of its keys keeps the run fit to stand under an internal node; the outer
/// boundary keys cannot widen.
pub proof fn lemma_kids_update_shrink<V, const CAP: usize>(
    oc: Seq<Node<V, CAP>>,
    idx: int,
    cnew: Node<V, CAP>,
)
    requires
        cap_valid(CAP as int),
        kids_wf(oc),
        forall|i: int| 0 <= i < oc.len() ==> (#[trigger] oc[i]).inv(),
        1 <= oc.len(),
        0 <= idx < oc.len(),
        cnew.inv(),
        min_fill(CAP as int) <= cnew.count(),
        cnew.height() == oc[idx].height(),
        cnew.first_key() >= oc[idx].first_key(),
        cnew.last_key() <= oc[idx].last_key(),
    ensures
        kids_wf(oc.update(idx, cnew)),
        forall|i: int| 0 <= i < oc.len() ==> (#[trigger] oc.update(idx, cnew)[i]).inv(),
        oc.update(idx, cnew)[0].height() == oc[0].height(),
        oc.update(idx, cnew)[0].first_key() >= oc[0].first_key(),
        oc.update(idx, cnew).last().last_key() <= oc.last().last_key(),
{
    let nc = oc.update(idx, cnew);
    assert(forall|i: int| 0 <= i < nc.len() && i != idx ==> nc[i] == oc[i]);
    assert(nc[idx] == cnew);
    assert(kids_wf(nc)) by {
        reveal(kids_wf);
        assert forall|i: int| 0 <= i < nc.len() - 1 implies (#[trigger] nc[i]).last_key() < nc[i
            + 1].first_key() by {
            if i + 1 == idx {
                assert(nc[i] == oc[i]);
            } else if i == idx {
                assert(nc[i + 1] == oc[i + 1]);
            } else {
                assert(nc[i] == oc[i] && nc[i + 1] == oc[i + 1]);
            }
        }
    }
}

/// Replacing two adjacent nodes of a run by a short run that spans the same
/// key region keeps the whole fit to stand under an internal node.
#[verifier::rlimit(100)]
pub proof fn lemma_kids_splice2<V, const CAP: usize>(
    oc: Seq<Node<V, CAP>>,
    li: int,
    mid: Seq<Node<V, CAP>>,
    r2: Seq<Node<V, CAP>>,
)
    requires
        cap_valid(CAP as int),
        kids_wf(oc),
        forall|i: int| 0 <= i < oc.len() ==> (#[trigger] oc[i]).inv(),
        0 <= li,
        li + 1 < oc.len(),
        1 <= mid.len(),
        r2.len() == oc.len() - 2 + mid.len(),
        forall|i: int| 0 <= i < li ==> r2[i] == oc[i],
        forall|j: int| 0 <= j < mid.len() ==> r2[li + j] == mid[j],
        forall|i: int| li + mid.len() <= i < r2.len() ==> r2[i] == oc[i - mid.len() + 2],
        forall|j: int| 0 <= j < mid.len() ==> (#[trigger] mid[j]).inv(),
        forall|j: int|
            0 <= j < mid.len() ==> (#[trigger] mid[j]).count() >= min_fill(CAP as int),
        forall|j: int| 0 <= j < mid.len() ==> (#[trigger] mid[j]).height() == oc[li].height(),
        forall|j: int|
            0 <= j < mid.len() - 1 ==> (#[trigger] mid[j]).last_key() < mid[j + 1].first_key(),
        li == 0 || oc[li - 1].last_key() < mid[0].first_key(),
        li + 2 < oc.len() ==> mid.last().last_key() < oc[li + 2].first_key(),
    ensures
        kids_wf(r2),
        forall|i: int| 0 <= i < r2.len() ==> (#[trigger] r2[i]).inv(),
        r2[0].height() == oc[0].height(),
{
    assert forall|i: int| 0 <= i < r2.len() implies (#[trigger] r2[i]).inv() by {
        if i < li {
            assert(r2[i] == oc[i]);
        } else if i >= li + mid.len() {
            assert(r2[i] == oc[i - mid.len() + 2]);
        } else {
            assert(r2[i] == mid[i - li]);
        }
    }
    assert(kids_wf(r2)) by {
        reveal(kids_wf);
        assert forall|i: int|
            0 <= i < r2.len() implies (#[trigger] r2[i]).count() >= min_fill(CAP as int)
            && r2[i].height() == r2[0].height() by {
            if i < li {
                assert(r2[i] == oc[i]);
            } else if i >= li + mid.len() {
                assert(r2[i] == oc[i - mid.len() + 2]);
            } else {
                assert(r2[i] == mid[i - li]);
            }
            if li == 0 {
                assert(r2[0] == mid[0]);
            } else {
                assert(r2[0] == oc[0]);
            }
        }
        assert forall|i: int| 0 <= i < r2.len() - 1 implies (#[trigger] r2[i]).last_key()
            < r2[i + 1].first_key() by {
            if i + 1 < li {
                assert(r2[i] == oc[i] && r2[i + 1] == oc[i + 1]);
            } else if i + 1 == li {
                assert(r2[i] == oc[i] && r2[i + 1] == mid[0]);
            } else if i + 1 < li + mid.len() {
                assert(r2[i] == mid[i - li] && r2[i + 1] == mid[i + 1 - li]);
            } else if i + 1 == li + mid.len() {
                assert(r2[i] == mid[mid.len() - 1]);
                if li + 2 < oc.len() {
                    assert(r2[i + 1] == oc[li + 2]);
                }
            } else {
                assert(r2[i] == oc[i - mid.len() + 2] && r2[i + 1] == oc[i + 1 - mid.len() + 2]);
            }
        }
    }
}

/// After a removal inside the selected child, the entries of the pair of
/// siblings that absorb the rebalancing, spliced back between the untouched
/// prefix and suffix, are exactly the whole run's entries less the removed
/// key.
#[verifier::rlimit(100)]
pub proof fn lemma_remove_splice_entries<V, const CAP: usize>(
    oc: Seq<Node<V, CAP>>,
    idx: int,
    li: int,
    query: u64,
    mid_e: Seq<(u64, V)>,
)
    requires
        cap_valid(CAP as int),
        kids_wf(oc),
        forall|i: int| 0 <= i < oc.len() ==> (#[trigger] oc[i]).inv(),
        2 <= oc.len(),
        0 <= idx < oc.len(),
        li == (if idx == 0 {
            0int
        } else {
            idx - 1
        }),
        idx == 0 || oc[idx].first_key() <= query,
        idx + 1 < oc.len() ==> query < oc[idx + 1].first_key(),
        mid_e == (if idx == 0 {
            remove_key(oc[0].entries(), query) + oc[1].entries()
        } else {
            oc[li].entries() + remove_key(oc[idx].entries(), query)
        }),
    ensures
        entries_of(oc.subrange(0, li)) + mid_e + entries_of(
            oc.subrange(li + 2, oc.len() as int),
        ) == remove_key(entries_of(oc), query),
{
    let n0 = oc.len() as int;
    let ea = entries_of(oc.subrange(0, idx));
    let ec = oc[idx].entries();
    let eb = entries_of(oc.subrange(idx + 1, n0));
    lemma_kids_run_wf(oc);
    lemma_key_in_run(oc, idx, query);
    assert(entries_of(oc) =~= ea + (ec + eb));
    lemma_remove_key_prefix(ea, ec + eb, query);
    lemma_remove_key_suffix(ec, eb, query);
    let pre = oc.subrange(0, li);
    let post = oc.subrange(li + 2, n0);
    if idx == 0 {
        assert(pre =~= Seq::<Node<V, CAP>>::empty());
        assert(oc.subrange(1, n0) =~= oc.subrange(1, 2) + post);
        lemma_entries_of_concat(oc.subrange(1, 2), post);
        lemma_entries_of_one(oc[1]);
        assert(oc.subrange(1, 2) =~= seq![oc[1]]);
        assert(ea =~= Seq::<(u64, V)>::empty());
        assert(remove_key(entries_of(oc), query) =~= remove_key(ec, query) + (oc[1].entries()
            + entries_of(post)));
        assert(entries_of(pre) + mid_e + entries_of(post) =~= remove_key(ec, query) + (
        oc[1].entries() + entries_of(post)));
    } else {
        assert(oc.subrange(0, idx) =~= pre + oc.subrange(li, li + 1));
        lemma_entries_of_concat(pre, oc.subrange(li, li + 1));
        lemma_entries_of_one(oc[li]);
        assert(oc.subrange(li, li + 1) =~= seq![oc[li]]);
        assert(post =~= oc.subrange(idx + 1, n0));
        assert(remove_key(entries_of(oc), query) =~= (entries_of(pre) + oc[li].entries())
            + (remove_key(ec, query) + entries_of(post)));
        assert(entries_of(pre) + mid_e + entries_of(post) =~= (entries_of(pre)
            + oc[li].entries()) + (remove_key(ec, query) + entries_of(post)));
    }
}

/// Cutting a run fit for an internal node at any inner position leaves two
/// runs both fit for internal nodes, whose entries concatenate to the
/// whole and whose adjacent boundary keys stay separated.
pub proof fn lemma_kids_halves<V, const CAP: usize>(r: Seq<Node<V, CAP>>, m: int)
    requires
        cap_valid(CAP as int),
        kids_wf(r),
        forall|i: int| 0 <= i < r.len() ==> (#[trigger] r[i]).inv(),
        1 <= m < r.len(),
    ensures
        kids_wf(r.subrange(0, m)),
        kids_wf(r.subrange(m, r.len() as int)),
        forall|i: int| 0 <= i < m ==> (#[trigger] r.subrange(0, m)[i]).inv(),
        forall|i: int|
            0 <= i < r.len() - m ==> (#[trigger] r.subrange(m, r.len() as int)[i]).inv(),
        entries_of(r.subrange(0, m)) + entries_of(r.subrange(m, r.len() as int)) == entries_of(
            r,
        ),
        r.subrange(0, m).last().last_key() < r.subrange(m, r.len() as int)[0].first_key(),
        r.subrange(m, r.len() as int)[0].height() == r[0].height(),
        r.subrange(0, m)[0] == r[0],
        r.subrange(m, r.len() as int).last() == r.last(),
{
    reveal(kids_wf);
    let lo = r.subrange(0, m);
    let hi = r.subrange(m, r.len() as int);
    assert(forall|i: int| 0 <= i < lo.len() ==> lo[i] == r[i]);
    assert(forall|i: int| 0 <= i < hi.len() ==> hi[i] == r[i + m]);
    assert(lo + hi =~= r);
    lemma_entries_of_concat(lo, hi);
}

impl<V, const CAP: usize> Node<V, CAP> {
    /// The cached first key of this node's range.
    pub fn first(&self) -> (r: u64)
        requires
            self.inv(),
            self.count() >= 1,
        ensures
            r == self.first_key(),
    {
        match self {
            Node::Leaf(leaf) => leaf.first(),
            Node::Internal(inner) => inner.head,
        }
    }

    /// The cached last key of this node's range.
    pub fn last(&self) -> (r: u64)
        requires
            self.inv(),
            self.count() >= 1,
        ensures
            r == self.last_key(),
    {
        match self {
            Node::Leaf(leaf) => leaf.last(),
            Node::Internal(inner) => inner.tail,
        }
    }

    /// Look the query up in the subtree. The caller has already ruled out
    /// queries below the node's range.
    pub fn get(&self, query: u64) -> (r: Option<&V>)
        requires
            self.inv(),
            self.count() >= 1,
            self.first_key() <= query,
        ensures
            match r {
                Some(v) => seq_get(self.entries(), query) == Some(*v),
                None => seq_get(self.entries(), query) == None::<V>,
            },
        decreases self.height(),
    {
        match self {
            Node::Leaf(leaf) => {
                match query_idx(&leaf.entries, query) {
                    Ok(i) => {
                        proof {
                            lemma_seq_get_index(leaf.entries@, i as int);
                        }
                        let e = &leaf.entries[i];
                        Some(&e.1)
                    },
                    Err(_) => {
                        proof {
                            lemma_seq_get_some(leaf.entries@, query);
                        }
                        None
                    },
                }
            },
            Node::Internal(inner) => {
                let s = &inner.children;
                proof {
                    lemma_kids_run_wf(s@);
                }
                if inner.tail < query {
                    proof {
                        lemma_run_bounds(s@);
                        lemma_seq_get_some(entries_of(s@), query);
                    }
                    return None;
                }
                let idx = find_idx(s, query);
                proof {
                    lemma_key_in_run(s@, idx as int, query);
                    let a = s@.subrange(0, idx as int);
                    let b = s@.subrange(idx as int + 1, s@.len() as int);
                    let c = s@[idx as int].entries();
                    lemma_seq_get_suffix(entries_of(a) + c, entries_of(b), query);
                    lemma_seq_get_prefix(entries_of(a), c, query);
                    assert(entries_of(a) + c + entries_of(b) == (entries_of(a) + c) + entries_of(
                        b,
                    ));
                    lemma_node_bounds(s@[idx as int]);
                    if idx == 0 {
                        assert(s@[0].first_key() == self.first_key());
                    }
                }
                let child = &s[idx];
                child.get(query)
            },
        }
    }

    /// Upsert into the subtree. An existing key has its value replaced, with
    /// the previous value handed back and no structural change. A new key is
    /// inserted at its sorted position; a node that overflows splits, and
    /// the new right sibling is handed up for the caller to link in.
    #[verifier::rlimit(100)]
    pub(crate) fn insert(&mut self, key: u64, value: V) -> (r: (Option<V>, Option<Node<V, CAP>>))
        requires
            old(self).inv(),
            old(self).count() >= 1,
        ensures
            final(self).inv(),
            final(self).height() == old(self).height(),
            final(self).count() >= 1,
            ((*final(self)) is Internal) == ((*old(self)) is Internal),
            r.0 == seq_get(old(self).entries(), key),
            r.0.is_some() ==> r.1.is_none() && final(self).count() == old(self).count(),
            match r.1 {
                None => {
                    &&& final(self).entries() == insert_sorted(old(self).entries(), key, value)
                    &&& old(self).count() <= final(self).count() <= old(self).count() + 1
                    &&& final(self).count() <= CAP
                    &&& final(self).first_key() == (if key < old(self).first_key() {
                        key
                    } else {
                        old(self).first_key()
                    })
                    &&& final(self).last_key() == (if key > old(self).last_key() {
                        key
                    } else {
                        old(self).last_key()
                    })
                },
                Some(sib) => {
                    &&& r.0.is_none()
                    &&& sib.inv()
                    &&& sib.height() == old(self).height()
                    &&& final(self).entries() + sib.entries() == insert_sorted(
                        old(self).entries(),
                        key,
                        value,
                    )
                    &&& old(self).count() == CAP
                    &&& final(self).count() == min_fill(CAP as int)
                    &&& sib.count() == min_fill(CAP as int)
                    &&& final(self).last_key() < sib.first_key()
                    &&& final(self).first_key() == (if key < old(self).first_key() {
                        key
                    } else {
                        old(self).first_key()
                    })
                    &&& sib.last_key() == (if key > old(self).last_key() {
                        key
                    } else {
                        old(self).last_key()
                    })
                },
            },
        decreases old(self).height(),
    {
        match self {
            Node::Leaf(leaf) => {
                let ghost orig = leaf.entries@;
                let (prev, split) = Leaf::insert(leaf, key, value);
                proof {
                    lemma_insert_sorted_sorted(orig, key, value);
                }
                match split {
                    None => (prev, None),
                    Some(sib) => {
                        proof {
                            let whole = insert_sorted(orig, key, value);
                            assert(leaf.entries@.first() == whole.first());
                            assert(sib.entries@.last() == whole.last());
                        }
                        (prev, Some(Node::Leaf(sib)))
                    },
                }
            },
            Node::Internal(inner) => {
                let ghost oc = inner.children@;
                let ghost n0 = oc.len() as int;
                proof {
                    lemma_kids_run_wf(oc);
                }
                let idx = find_idx(&inner.children, key);
                let ghost ea = entries_of(oc.subrange(0, idx as int));
                let ghost ec = oc[idx as int].entries();
                let ghost eb = entries_of(oc.subrange(idx as int + 1, n0));
                proof {
                    lemma_key_in_run(oc, idx as int, key);
                    assert(entries_of(oc) =~= ea + (ec + eb));
                    lemma_seq_get_prefix(ea, ec + eb, key);
                    lemma_seq_get_suffix(ec, eb, key);
                }
                let ghost gvalue = value;
                let mut child = inner.children.remove(idx);
                let (prev, split) = Node::insert(&mut child, key, value);
                let ghost cnew = child;
                inner.children.insert(idx, child);
                proof {
                    assert(inner.children@ =~= oc.update(idx as int, cnew));
                }
                let sib = Internal::splice_child(
                    inner,
                    idx,
                    split,
                    Ghost(oc),
                    Ghost(key),
                    Ghost(gvalue),
                );
                match sib {
                    None => (prev, None),
                    Some(s) => (prev, Some(Node::Internal(s))),
                }
            },
        }
    }

    /// Remove the entry carrying `query` from the subtree, if any, handing
    /// back the removed entry and whether this node is now under the
    /// minimum fill. A deficient child is rebalanced on the way out against
    /// its left neighbour — its right neighbour when it is the first child —
    /// either by moving exactly one element across or by draining the right
    /// member of the pair into the left. The caller has already ruled out
    /// queries below the node's range.
    #[verifier::rlimit(100)]
    pub(crate) fn remove(&mut self, query: u64) -> (r: Option<((u64, V), bool)>)
        requires
            old(self).inv(),
            old(self).count() >= 1,
            (*old(self)) is Internal ==> old(self).count() >= 2,
            old(self).first_key() <= query,
        ensures
            final(self).inv(),
            final(self).height() == old(self).height(),
            ((*final(self)) is Internal) == ((*old(self)) is Internal),
            match r {
                None => {
                    &&& seq_get(old(self).entries(), query) == None::<V>
                    &&& final(self).entries() == old(self).entries()
                    &&& final(self).count() == old(self).count()
                    &&& final(self).first_key() == old(self).first_key()
                    &&& final(self).last_key() == old(self).last_key()
                },
                Some(((k, v), deficient)) => {
                    &&& k == query
                    &&& seq_get(old(self).entries(), query) == Some(v)
                    &&& final(self).entries() == remove_key(old(self).entries(), query)
                    &&& old(self).count() - 1 <= final(self).count() <= old(self).count()
                    &&& deficient == (final(self).count() < min_fill(CAP as int))
                    &&& final(self).count() >= 1 ==> final(self).first_key() >= old(
                        self,
                    ).first_key() && final(self).last_key() <= old(self).last_key()
                    &&& ((*old(self)) is Internal ==> exists|i: int|
                        removal_at(
                            (*old(self))->Internal_0.children@,
                            (*final(self))->Internal_0.children@,
                            query,
                            i,
                        ))
                },
            },
        decreases old(self).height(),
    {
        match self {
            Node::Leaf(leaf) => {
                let ghost orig = leaf.entries@;
                let res = Leaf::remove(leaf, query);
                proof {
                    lemma_remove_key_sorted(orig, query);
                }
                res
            },
            Node::Internal(inner) => {
                let ghost oc = inner.children@;
                let ghost n0 = oc.len() as int;
                proof {
                    lemma_kids_run_wf(oc);
                }
                if inner.tail < query {
                    proof {
                        lemma_run_bounds(oc);
                        lemma_seq_get_some(entries_of(oc), query);
                    }
                    return None;
                }
                let idx = find_idx(&inner.children, query);
                let ghost ea = entries_of(oc.subrange(0, idx as int));
                let ghost ec = oc[idx as int].entries();
                let ghost eb = entries_of(oc.subrange(idx as int + 1, n0));
                proof {
                    lemma_key_in_run(oc, idx as int, query);
                    assert(entries_of(oc) =~= ea + (ec + eb));
                    lemma_seq_get_prefix(ea, ec + eb, query);
                    lemma_seq_get_suffix(ec, eb, query);
                    assert(oc[idx as int].height() < old(self).height());
                }
                let mut child = inner.children.remove(idx);
                let res = Node::remove(&mut child, query);
                let ghost cnew = child;
                inner.children.insert(idx, child);
                proof {
                    assert(inner.children@ =~= oc.update(idx as int, cnew));
                }
                match res {
                    None => {
                        proof {
                            lemma_kids_update_shrink(oc, idx as int, cnew);
                            lemma_entries_update(oc, idx as int, cnew);
                            assert(ea + cnew.entries() + eb =~= ea + (ec + eb));
                            assert(oc.update(idx as int, cnew)[0].first_key() == oc[
                                0
                            ].first_key());
                            assert(oc.update(idx as int, cnew).last().last_key()
                                == oc.last().last_key());
                        }
                        None
                    },
                    Some((pair, child_deficient)) => {
                        let d = Internal::remove_rebalance(
                            inner,
                            idx,
                            child_deficient,
                            Ghost(oc),
                            Ghost(query),
                        );
                        proof {
                            assert(ea + (remove_key(ec, query) + eb) =~= ea + remove_key(
                                ec,
                                query,
                            ) + eb);
                            lemma_remove_key_prefix(ea, ec + eb, query);
                            lemma_remove_key_suffix(ec, eb, query);
                            assert(removal_at(oc, inner.children@, query, idx as int));
                        }
                        Some((pair, d))
                    },
                }
            },
        }
    }

    /// Rebalance two structurally adjacent siblings, one of which sits just
    /// below the minimum fill: move one boundary element across when the
    /// donor can spare it, otherwise drain the right sibling into the left
    /// and report it consumed.
    pub(crate) fn balance_or_drain(&mut self, next: &mut Node<V, CAP>, lacking_next: bool) -> (drained:
        bool)
        requires
            old(self).inv(),
            old(next).inv(),
            old(self).count() >= 1,
            old(next).count() >= 1,
            old(self).height() == old(next).height(),
            old(self).last_key() < old(next).first_key(),
            lacking_next ==> old(next).count() == min_fill(CAP as int) - 1 && old(self).count()
                >= min_fill(CAP as int),
            !lacking_next ==> old(self).count() == min_fill(CAP as int) - 1 && old(next).count()
                >= min_fill(CAP as int),
        ensures
            final(self).inv(),
            final(self).height() == old(self).height(),
            min_fill(CAP as int) <= final(self).count() <= CAP,
            final(self).first_key() == old(self).first_key(),
            drained == (if lacking_next {
                old(self).count() == min_fill(CAP as int)
            } else {
                old(next).count() == min_fill(CAP as int)
            }),
            if drained {
                &&& final(self).entries() == old(self).entries() + old(next).entries()
                &&& final(self).count() == old(self).count() + old(next).count()
                &&& final(next).count() == 0
                &&& final(next).entries() == Seq::<(u64, V)>::empty()
                &&& final(self).last_key() == old(next).last_key()
            } else {
                &&& final(next).inv()
                &&& (if lacking_next {
                    final(next).count() == min_fill(CAP as int) && final(self).count() == old(
                        self,
                    ).count() - 1
                } else {
                    final(self).count() == min_fill(CAP as int) && final(next).count() == old(
                        next,
                    ).count() - 1
                })
                &&& final(next).height() == old(next).height()
                &&& final(self).entries() + final(next).entries() == old(self).entries() + old(
                    next,
                ).entries()
                &&& min_fill(CAP as int) <= final(next).count() <= CAP
                &&& final(self).last_key() < final(next).first_key()
                &&& final(next).last_key() == old(next).last_key()
            },
    {
        match self {
            Node::Leaf(a) => {
                match next {
                    Node::Leaf(b) => Leaf::balance_or_drain(a, b, lacking_next),
                    Node::Internal(_) => {
                        proof {
                            assert(false);
                        }
                        vstd::pervasive::unreached()
                    },
                }
            },
            Node::Internal(a) => {
                match next {
                    Node::Internal(b) => Internal::balance_or_drain(a, b, lacking_next),
                    Node::Leaf(_) => {
                        proof {
                            assert(false);
                        }
                        vstd::pervasive::unreached()
                    },
                }
            },
        }
    }

    /// Look the query up in the subtree and hand back exclusive access to
    /// the matching value; only the value behind the handle can change, so
    /// the tree keeps its shape and order. The caller has already ruled out
    /// queries below the node's range.
    #[verifier::rlimit(100)]
    pub(crate) fn get_mut(&mut self, query: u64) -> (r: Option<&mut V>)
        requires
            old(self).inv(),
            old(self).count() >= 1,
            old(self).first_key() <= query,
        ensures
            final(self).inv(),
            final(self).height() == old(self).height(),
            final(self).count() == old(self).count(),
            final(self).first_key() == old(self).first_key(),
            final(self).last_key() == old(self).last_key(),
            ((*final(self)) is Internal) == ((*old(self)) is Internal),
            match r {
                None => final(self).entries() == old(self).entries() && seq_get(
                    old(self).entries(),
                    query,
                ) == None::<V>,
                Some(v) => {
                    &&& seq_get(old(self).entries(), query) == Some(*v)
                    &&& final(self).entries() == insert_sorted(
                        old(self).entries(),
                        query,
                        *final(v),
                    )
                },
            },
        decreases old(self).height(),
    {
        match self {
            Node::Leaf(leaf) => {
                let ghost orig = leaf.entries@;
                match query_idx(&leaf.entries, query) {
                    Ok(i) => {
                        proof {
                            lemma_seq_get_index(orig, i as int);
                            assert forall|v: V|
                                insert_sorted(orig, query, v) == orig.update(
                                    i as int,
                                    (query, v),
                                ) by {
                                lemma_insert_sorted_replaces(orig, i as int, query, v);
                            }
                            assert forall|v: V| strictly_sorted(
                                #[trigger] orig.update(i as int, (query, v)),
                            ) by {
                                assert(forall|j: int|
                                    0 <= j < orig.len() ==> (#[trigger] orig.update(
                                        i as int,
                                        (query, v),
                                    )[j]).0 == orig[j].0);
                            }
                        }
                        let e = vstd::std_specs::vec::vec_index_mut(&mut leaf.entries, i);
                        Some(&mut e.1)
                    },
                    Err(_) => {
                        proof {
                            lemma_seq_get_some(orig, query);
                        }
                        None
                    },
                }
            },
            Node::Internal(inner) => {
                let ghost oc = inner.children@;
                let ghost n0 = oc.len() as int;
                proof {
                    lemma_kids_run_wf(oc);
                }
                if inner.tail < query {
                    proof {
                        lemma_run_bounds(oc);
                        lemma_seq_get_some(entries_of(oc), query);
                    }
                    return None;
                }
                let idx = find_idx(&inner.children, query);
                let ghost ea = entries_of(oc.subrange(0, idx as int));
                let ghost ec = oc[idx as int].entries();
                let ghost eb = entries_of(oc.subrange(idx as int + 1, n0));
                proof {
                    lemma_key_in_run(oc, idx as int, query);
                    assert(entries_of(oc) =~= ea + (ec + eb));
                    lemma_seq_get_prefix(ea, ec + eb, query);
                    lemma_seq_get_suffix(ec, eb, query);
                    assert forall|n: Node<V, CAP>|
                        entries_of(#[trigger] oc.update(idx as int, n)) == ea + n.entries()
                            + eb by {
                        lemma_entries_update(oc, idx as int, n);
                    }
                    assert forall|v: V|
                        insert_sorted(entries_of(oc), query, v) == ea + (insert_sorted(
                            ec,
                            query,
                            v,
                        ) + eb) by {
                        lemma_insert_sorted_prefix(ea, ec + eb, query, v);
                        lemma_insert_sorted_suffix(ec, eb, query, v);
                    }
                    assert forall|n: Node<V, CAP>|
                        (n.inv() && n.count() == oc[idx as int].count() && n.height() == oc[
                            idx as int
                        ].height() && n.first_key() == oc[idx as int].first_key()
                            && n.last_key() == oc[idx as int].last_key()) implies kids_wf(
                        #[trigger] oc.update(idx as int, n),
                    ) && (forall|i: int|
                        0 <= i < n0 ==> (#[trigger] oc.update(idx as int, n)[i]).inv())
                        && oc.update(idx as int, n)[0].height() == oc[0].height()
                        && oc.update(idx as int, n)[0].first_key() == oc[0].first_key()
                        && oc.update(idx as int, n).last().last_key()
                        == oc.last().last_key() by {
                        if n.inv() && n.count() == oc[idx as int].count() && n.height() == oc[
                            idx as int
                        ].height() && n.first_key() == oc[idx as int].first_key()
                            && n.last_key() == oc[idx as int].last_key() {
                            lemma_kids_update_shrink(oc, idx as int, n);
                        }
                    }
                    assert(ea + (ec + eb) =~= ea + ec + eb);
                }
                let child = vstd::std_specs::vec::vec_index_mut(&mut inner.children, idx);
                Node::get_mut(child, query)
            },
        }
    }

    /// When the node is an internal node left with a single child, hand
    /// that child out so the tree can lose one level.
    pub(crate) fn pop_depth(&mut self) -> (r: Option<Node<V, CAP>>)
        requires
            old(self).inv(),
        ensures
            match r {
                None => *final(self) == *old(self) && ((*old(self)) is Internal ==> old(
                    self,
                ).count() != 1),
                Some(child) => {
                    &&& (*old(self)) is Internal
                    &&& old(self).count() == 1
                    &&& child.inv()
                    &&& child.count() >= min_fill(CAP as int)
                    &&& child.entries() == old(self).entries()
                    &&& child.height() + 1 == old(self).height()
                    &&& child.first_key() == old(self).first_key()
                    &&& child.last_key() == old(self).last_key()
                },
            },
    {
        match self {
            Node::Leaf(_) => None,
            Node::Internal(inner) => {
                if inner.children.len() == 1 {
                    proof {
                        lemma_kids_run_wf(inner.children@);
                    }
                    let child = inner.children.pop().unwrap();
                    proof {
                        let oc = old(self)->Internal_0.children@;
                        assert(child == oc[0]);
                        assert(entries_of(oc) == oc[0].entries() + entries_of(oc.drop_first()));
                        assert(oc.drop_first() =~= Seq::<Node<V, CAP>>::empty());
                        assert(oc[0].entries() + Seq::<(u64, V)>::empty() =~= oc[0].entries());
                    }
                    Some(child)
                } else {
                    None
                }
            },
        }
    }
}

} // verus!
