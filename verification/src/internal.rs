//! Internal-node helpers: child selection by cached boundary keys, and the
//! construction of a fresh root over two sibling subtrees.

use vstd::prelude::*;

use crate::insert_or_split;
use crate::model::insert_sorted;
use crate::model::lemma_insert_sorted_prefix;
use crate::model::lemma_insert_sorted_suffix;
use crate::model::lemma_remove_key_prefix;
use crate::model::lemma_remove_key_suffix;
use crate::model::remove_key;
use crate::node::cap_valid;
use crate::node::entries_of;
use crate::node::kids_wf;
use crate::node::lemma_entries_of_concat;
use crate::node::lemma_kids_concat;
use crate::node::lemma_entries_update;
use crate::node::lemma_entries_update_insert;
use crate::node::lemma_key_in_run;
use crate::node::lemma_entries_of_one;
use crate::node::lemma_entries_of_three;
use crate::node::lemma_kids_halves;
use crate::node::lemma_kids_run_wf;
use crate::node::lemma_kids_split;
use crate::node::lemma_kids_splice2;
use crate::node::lemma_kids_update;
use crate::node::lemma_kids_update_shrink;
use crate::node::lemma_node_bounds;
use crate::node::lemma_remove_splice_entries;
use crate::node::removal_shape;
use crate::node::min_fill;
use crate::node::run_wf;
use crate::node::Internal;
use crate::node::Node;

verus! {

/// Pick the child whose range the query can fall in: the last child whose
/// first key does not exceed the query, or the first child when the query
/// lies before every child.
pub(crate) fn find_idx<V, const CAP: usize>(children: &Vec<Node<V, CAP>>, query: u64) -> (idx:
    usize)
    requires
        children@.len() >= 1,
        run_wf(children@),
    ensures
        idx < children@.len(),
        idx == 0 || children@[idx as int].first_key() <= query,
        idx + 1 < children@.len() ==> query < children@[idx as int + 1].first_key(),
{
    let n = children.len();
    let mut i: usize = 1;
    while i < n
        invariant
            run_wf(children@),
            n == children@.len(),
            1 <= i <= n,
            forall|j: int| 1 <= j < i ==> (#[trigger] children@[j]).first_key() <= query,
        decreases n - i,
    {
        let c = &children[i];
        if c.first() > query {
            return i - 1;
        }
        i += 1;
    }
    n - 1
}


/// Splicing the rebalanced pair back between the untouched prefix and
/// suffix restores an internal node's children run and yields exactly the
/// old entries less the removed key.
#[verifier::rlimit(100)]
proof fn lemma_rebalance_glue<V, const CAP: usize>(
    oc: Seq<Node<V, CAP>>,
    idx: int,
    li: int,
    query: u64,
    mid: Seq<Node<V, CAP>>,
    r2: Seq<Node<V, CAP>>,
)
    requires
        cap_valid(CAP as int),
        kids_wf(oc),
        forall|i: int| 0 <= i < oc.len() ==> (#[trigger] oc[i]).inv(),
        2 <= oc.len(),
        0 <= idx < oc.len(),
        li == (if idx == 0 {
            0int
        } else {
            idx - 1
        }),
        idx == 0 || oc[idx].first_key() <= query,
        idx + 1 < oc.len() ==> query < oc[idx + 1].first_key(),
        1 <= mid.len() <= 2,
        r2.len() == oc.len() - 2 + mid.len(),
        forall|i: int| 0 <= i < li ==> r2[i] == oc[i],
        forall|j: int| 0 <= j < mid.len() ==> r2[li + j] == mid[j],
        forall|i: int| li + mid.len() <= i < r2.len() ==> r2[i] == oc[i - mid.len() + 2],
        forall|j: int| 0 <= j < mid.len() ==> (#[trigger] mid[j]).inv(),
        forall|j: int|
            0 <= j < mid.len() ==> (#[trigger] mid[j]).count() >= min_fill(CAP as int),
        forall|j: int| 0 <= j < mid.len() ==> (#[trigger] mid[j]).height() == oc[li].height(),
        mid.len() == 2 ==> mid[0].last_key() < mid[1].first_key(),
        mid[0].first_key() >= oc[li].first_key(),
        mid.last().last_key() <= oc[li + 1].last_key(),
        entries_of(mid) == (if idx == 0 {
            remove_key(oc[0].entries(), query) + oc[1].entries()
        } else {
            oc[li].entries() + remove_key(oc[idx].entries(), query)
        }),
    ensures
        kids_wf(r2),
        forall|i: int| 0 <= i < r2.len() ==> (#[trigger] r2[i]).inv(),
        r2.len() >= 1,
        r2[0].height() == oc[0].height(),
        entries_of(r2) == remove_key(entries_of(oc), query),
        r2[0].first_key() >= oc[0].first_key(),
        r2.last().last_key() <= oc.last().last_key(),
{
    lemma_kids_run_wf(oc);
    assert(li == 0 || oc[li - 1].last_key() < mid[0].first_key()) by {
        if li > 0 {
            assert(oc[li - 1].last_key() < oc[li].first_key());
        }
    }
    assert(li + 2 < oc.len() ==> mid.last().last_key() < oc[li + 2].first_key()) by {
        if li + 2 < oc.len() {
            assert(oc[li + 1].last_key() < oc[li + 2].first_key());
        }
    }
    lemma_kids_splice2(oc, li, mid, r2);
    let pre = oc.subrange(0, li);
    let post = oc.subrange(li + 2, oc.len() as int);
    assert(r2 =~= pre + mid + post);
    lemma_entries_of_three(pre, mid, post);
    lemma_remove_splice_entries(oc, idx, li, query, entries_of(mid));
    assert(r2[0] == (if li == 0 {
        mid[0]
    } else {
        oc[0]
    }));
    assert(r2.last() == (if li + mid.len() == r2.len() {
        mid.last()
    } else {
        oc.last()
    }));
    if li + mid.len() == r2.len() {
        assert(li + 1 == oc.len() - 1);
        lemma_node_bounds(oc.last());
    } else {
        assert(r2.last() == oc.last());
    }
    if li == 0 {
        lemma_node_bounds(oc[0]);
    }
}

impl<V, const CAP: usize> Internal<V, CAP> {
    /// Refresh the cached boundary keys from the first and last child's own
    /// caches, after any mutation of the children run.
    pub(crate) fn refresh_bounds(&mut self)
        requires
            old(self).children@.len() >= 1,
            forall|i: int|
                0 <= i < old(self).children@.len() ==> (#[trigger] old(self).children@[i]).inv()
                    && old(self).children@[i].count() >= 1,
        ensures
            final(self).children@ == old(self).children@,
            final(self).head == old(self).children@[0].first_key(),
            final(self).tail == old(self).children@[old(self).children@.len() - 1].last_key(),
    {
        let h = {
            let c = &self.children[0];
            c.first()
        };
        self.head = h;
        let li = self.children.len() - 1;
        let t = {
            let c = &self.children[li];
            c.last()
        };
        self.tail = t;
    }

    /// The internal-node side of the balance-or-drain step: move one child
    /// across the seam when the donor can spare it, otherwise drain the
    /// right node's children into the left.
    #[verifier::rlimit(100)]
    pub(crate) fn balance_or_drain(&mut self, next: &mut Internal<V, CAP>, lacking_next: bool) -> (drained:
        bool)
        requires
            Node::Internal(*old(self)).inv(),
            Node::Internal(*old(next)).inv(),
            Node::Internal(*old(self)).height() == Node::Internal(*old(next)).height(),
            Node::Internal(*old(self)).last_key() < Node::Internal(*old(next)).first_key(),
            lacking_next ==> old(next).children@.len() == min_fill(CAP as int) - 1 && old(
                self,
            ).children@.len() >= min_fill(CAP as int),
            !lacking_next ==> old(self).children@.len() == min_fill(CAP as int) - 1 && old(
                next,
            ).children@.len() >= min_fill(CAP as int),
        ensures
            Node::Internal(*final(self)).inv(),
            Node::Internal(*final(self)).height() == Node::Internal(*old(self)).height(),
            min_fill(CAP as int) <= final(self).children@.len() <= CAP,
            Node::Internal(*final(self)).first_key() == Node::Internal(*old(self)).first_key(),
            drained == (if lacking_next {
                old(self).children@.len() == min_fill(CAP as int)
            } else {
                old(next).children@.len() == min_fill(CAP as int)
            }),
            if drained {
                &&& final(self).children@ == old(self).children@ + old(next).children@
                &&& final(next).children@.len() == 0
                &&& Node::Internal(*final(self)).entries() == Node::Internal(
                    *old(self),
                ).entries() + Node::Internal(*old(next)).entries()
                &&& final(self).children@.len() == old(self).children@.len() + old(
                    next,
                ).children@.len()
                &&& Node::Internal(*final(self)).last_key() == Node::Internal(
                    *old(next),
                ).last_key()
            } else {
                &&& Node::Internal(*final(next)).inv()
                &&& (if lacking_next {
                    final(self).children@ == old(self).children@.drop_last()
                        && final(next).children@ == seq![old(self).children@.last()]
                        + old(next).children@
                } else {
                    final(self).children@ == old(self).children@.push(
                        old(next).children@.first(),
                    ) && final(next).children@ == old(next).children@.drop_first()
                })
                &&& Node::Internal(*final(next)).height() == Node::Internal(
                    *old(next),
                ).height()
                &&& Node::Internal(*final(self)).entries() + Node::Internal(
                    *final(next),
                ).entries() == Node::Internal(*old(self)).entries() + Node::Internal(
                    *old(next),
                ).entries()
                &&& min_fill(CAP as int) <= final(next).children@.len() <= CAP
                &&& Node::Internal(*final(self)).last_key() < Node::Internal(
                    *final(next),
                ).first_key()
                &&& Node::Internal(*final(next)).last_key() == Node::Internal(
                    *old(next),
                ).last_key()
            },
    {
        let b: usize = CAP / 2 + 1;
        let ghost a0 = self.children@;
        let ghost b0 = next.children@;
        proof {
            lemma_kids_run_wf(a0);
            lemma_kids_run_wf(b0);
        }
        if lacking_next && self.children.len() > b {
            let moved = self.children.pop().unwrap();
            next.children.insert(0, moved);
            proof {
                let m = a0.last();
                assert(self.children@ =~= a0.subrange(0, a0.len() - 1));
                assert(self.children@ =~= a0.drop_last());
                assert(next.children@ =~= a0.subrange(a0.len() - 1, a0.len() as int) + b0);
                assert(next.children@ =~= seq![a0.last()] + b0);
                lemma_kids_halves(a0, a0.len() - 1);
                lemma_kids_concat(a0.subrange(a0.len() - 1, a0.len() as int), b0);
                lemma_entries_of_concat(a0.subrange(a0.len() - 1, a0.len() as int), b0);
                assert(entries_of(self.children@) + entries_of(next.children@)
                    =~= (entries_of(a0.subrange(0, a0.len() - 1)) + entries_of(
                    a0.subrange(a0.len() - 1, a0.len() as int),
                )) + entries_of(b0));
                lemma_kids_run_wf(self.children@);
                lemma_kids_run_wf(next.children@);
            }
            Internal::refresh_bounds(self);
            Internal::refresh_bounds(next);
            return false;
        }
        if !lacking_next && next.children.len() > b {
            let moved = next.children.remove(0);
            self.children.push(moved);
            proof {
                assert(self.children@ =~= a0 + b0.subrange(0, 1));
                assert(self.children@ =~= a0.push(b0.first()));
                assert(next.children@ =~= b0.subrange(1, b0.len() as int));
                assert(next.children@ =~= b0.drop_first());
                lemma_kids_halves(b0, 1);
                lemma_kids_concat(a0, b0.subrange(0, 1));
                lemma_entries_of_concat(a0, b0.subrange(0, 1));
                assert(entries_of(self.children@) + entries_of(next.children@)
                    =~= entries_of(a0) + (entries_of(b0.subrange(0, 1)) + entries_of(
                    b0.subrange(1, b0.len() as int),
                )));
                lemma_kids_run_wf(self.children@);
                lemma_kids_run_wf(next.children@);
            }
            Internal::refresh_bounds(self);
            Internal::refresh_bounds(next);
            return false;
        }
        self.children.append(&mut next.children);
        proof {
            assert(self.children@ =~= a0 + b0);
            lemma_kids_concat(a0, b0);
            lemma_entries_of_concat(a0, b0);
            lemma_kids_run_wf(self.children@);
        }
        Internal::refresh_bounds(self);
        true
    }

    /// With the selected child already shrunk in place by a removal,
    /// rebalance it against an adjacent sibling if it fell below the
    /// minimum fill — preferring the left neighbour except for the first
    /// child — and refresh the cached boundary keys.
    pub(crate) fn remove_rebalance(&mut self, idx: usize, child_deficient: bool, Ghost(oc): Ghost<
        Seq<Node<V, CAP>>,
    >, Ghost(query): Ghost<u64>) -> (deficient: bool)
        requires
            cap_valid(CAP as int),
            kids_wf(oc),
            forall|i: int| 0 <= i < oc.len() ==> (#[trigger] oc[i]).inv(),
            2 <= oc.len() <= CAP,
            idx < oc.len(),
            old(self).children@ == oc.update(idx as int, old(self).children@[idx as int]),
            idx == 0 || oc[idx as int].first_key() <= query,
            idx as int + 1 < oc.len() ==> query < oc[idx as int + 1].first_key(),
            old(self).children@[idx as int].inv(),
            min_fill(CAP as int) - 1 <= old(self).children@[idx as int].count(),
            oc[idx as int].count() - 1 <= old(self).children@[idx as int].count() <= oc[
                idx as int
            ].count(),
            old(self).children@[idx as int].height() == oc[idx as int].height(),
            old(self).children@[idx as int].entries() == remove_key(
                oc[idx as int].entries(),
                query,
            ),
            child_deficient == (old(self).children@[idx as int].count() < min_fill(
                CAP as int,
            )),
            old(self).children@[idx as int].first_key() >= oc[idx as int].first_key(),
            old(self).children@[idx as int].last_key() <= oc[idx as int].last_key(),
        ensures
            Node::Internal(*final(self)).inv(),
            Node::Internal(*final(self)).height() == 1 + oc[0].height(),
            Node::Internal(*final(self)).entries() == remove_key(entries_of(oc), query),
            oc.len() - 1 <= final(self).children@.len() <= oc.len(),
            deficient == (final(self).children@.len() < min_fill(CAP as int)),
            removal_shape(oc, final(self).children@, idx as int),
            Node::Internal(*final(self)).first_key() >= oc[0].first_key(),
            Node::Internal(*final(self)).last_key() <= oc.last().last_key(),
    {
        let ghost cnew = old(self).children@[idx as int];
        let ghost n0 = oc.len() as int;
        let b: usize = CAP / 2 + 1;
        if !child_deficient {
            proof {
                let ea = entries_of(oc.subrange(0, idx as int));
                let ec = oc[idx as int].entries();
                let eb = entries_of(oc.subrange(idx as int + 1, n0));
                lemma_kids_run_wf(oc);
                lemma_key_in_run(oc, idx as int, query);
                assert(entries_of(oc) =~= ea + (ec + eb));
                lemma_remove_key_prefix(ea, ec + eb, query);
                lemma_remove_key_suffix(ec, eb, query);
                lemma_kids_update_shrink(oc, idx as int, cnew);
                lemma_entries_update(oc, idx as int, cnew);
                assert(ea + cnew.entries() + eb =~= ea + (remove_key(ec, query) + eb));
                lemma_kids_run_wf(oc.update(idx as int, cnew));
            }
            Internal::refresh_bounds(self);
            return self.children.len() < b;
        }
        proof {
            lemma_kids_run_wf(oc);
        }
        self.rebalance_pair(idx, Ghost(oc), Ghost(query));
        self.children.len() < b
    }

    /// The deficient-child half of the rebalancing: pair the child with an
    /// adjacent sibling, move one element across or drain the right sibling
    /// into the left, splice the result back, and refresh the cached
    /// boundary keys.
    #[verifier::rlimit(100)]
    fn rebalance_pair(&mut self, idx: usize, Ghost(oc): Ghost<Seq<Node<V, CAP>>>, Ghost(
        query,
    ): Ghost<u64>)
        requires
            cap_valid(CAP as int),
            kids_wf(oc),
            forall|i: int| 0 <= i < oc.len() ==> (#[trigger] oc[i]).inv(),
            2 <= oc.len() <= CAP,
            idx < oc.len(),
            old(self).children@ == oc.update(idx as int, old(self).children@[idx as int]),
            idx == 0 || oc[idx as int].first_key() <= query,
            idx as int + 1 < oc.len() ==> query < oc[idx as int + 1].first_key(),
            old(self).children@[idx as int].inv(),
            old(self).children@[idx as int].count() == min_fill(CAP as int) - 1,
            oc[idx as int].count() == min_fill(CAP as int),
            old(self).children@[idx as int].height() == oc[idx as int].height(),
            old(self).children@[idx as int].entries() == remove_key(
                oc[idx as int].entries(),
                query,
            ),
            old(self).children@[idx as int].first_key() >= oc[idx as int].first_key(),
            old(self).children@[idx as int].last_key() <= oc[idx as int].last_key(),
        ensures
            Node::Internal(*final(self)).inv(),
            Node::Internal(*final(self)).height() == 1 + oc[0].height(),
            Node::Internal(*final(self)).entries() == remove_key(entries_of(oc), query),
            oc.len() - 1 <= final(self).children@.len() <= oc.len(),
            removal_shape(oc, final(self).children@, idx as int),
            Node::Internal(*final(self)).first_key() >= oc[0].first_key(),
            Node::Internal(*final(self)).last_key() <= oc.last().last_key(),
    {
        let ghost cnew = old(self).children@[idx as int];
        proof {
            lemma_kids_run_wf(oc);
        }
        let lacking_next: bool = idx != 0;
        let left_idx: usize = if idx == 0 {
            0
        } else {
            idx - 1
        };
        let ghost li = left_idx as int;
        let mut right = self.children.remove(left_idx + 1);
        let mut left = self.children.remove(left_idx);
        proof {
            assert(left == (if idx == 0 {
                cnew
            } else {
                oc[li]
            }));
            assert(right == (if idx == 0 {
                oc[1]
            } else {
                cnew
            }));
            if idx == 0 {
                assert(cnew.last_key() <= oc[0].last_key());
                assert(oc[0].last_key() < oc[1].first_key());
            } else {
                assert(oc[li].last_key() < oc[idx as int].first_key());
            }
        }
        let drained = Node::balance_or_drain(&mut left, &mut right, lacking_next);
        let right_opt: Option<Node<V, CAP>> = if drained {
            None
        } else {
            Some(right)
        };
        self.splice_pair(left_idx, left, right_opt, Ghost(oc), Ghost(idx as int), Ghost(query));
    }

    /// Put the rebalanced pair — or the single node the drain left — back
    /// into the children run and refresh the cached boundary keys.
    #[verifier::rlimit(100)]
    fn splice_pair(
        &mut self,
        left_idx: usize,
        left: Node<V, CAP>,
        right: Option<Node<V, CAP>>,
        Ghost(oc): Ghost<Seq<Node<V, CAP>>>,
        Ghost(idx): Ghost<int>,
        Ghost(query): Ghost<u64>,
    )
        requires
            cap_valid(CAP as int),
            kids_wf(oc),
            forall|i: int| 0 <= i < oc.len() ==> (#[trigger] oc[i]).inv(),
            2 <= oc.len() <= CAP,
            0 <= idx < oc.len(),
            left_idx as int == (if idx == 0 {
                0int
            } else {
                idx - 1
            }),
            idx == 0 || oc[idx].first_key() <= query,
            idx + 1 < oc.len() ==> query < oc[idx + 1].first_key(),
            old(self).children@.len() == oc.len() - 2,
            forall|i: int| 0 <= i < left_idx as int ==> old(self).children@[i] == oc[i],
            forall|i: int|
                left_idx as int <= i < old(self).children@.len() ==> old(self).children@[i]
                    == oc[i + 2],
            left.inv(),
            min_fill(CAP as int) <= left.count() <= CAP,
            left.height() == oc[left_idx as int].height(),
            left.first_key() >= oc[left_idx as int].first_key(),
            match right {
                None => left.entries() == (if idx == 0 {
                    remove_key(oc[0].entries(), query) + oc[1].entries()
                } else {
                    oc[left_idx as int].entries() + remove_key(oc[idx].entries(), query)
                }) && left.last_key() <= oc[left_idx as int + 1].last_key(),
                Some(r) => {
                    &&& left.entries() + r.entries() == (if idx == 0 {
                        remove_key(oc[0].entries(), query) + oc[1].entries()
                    } else {
                        oc[left_idx as int].entries() + remove_key(oc[idx].entries(), query)
                    })
                    &&& r.inv()
                    &&& min_fill(CAP as int) <= r.count() <= CAP
                    &&& r.height() == oc[left_idx as int].height()
                    &&& left.last_key() < r.first_key()
                    &&& r.last_key() <= oc[left_idx as int + 1].last_key()
                },
            },
        ensures
            Node::Internal(*final(self)).inv(),
            Node::Internal(*final(self)).height() == 1 + oc[0].height(),
            Node::Internal(*final(self)).entries() == remove_key(entries_of(oc), query),
            oc.len() - 1 <= final(self).children@.len() <= oc.len(),
            forall|j: int| 0 <= j < left_idx as int ==> final(self).children@[j] == oc[j],
            final(self).children@[left_idx as int] == left,
            match right {
                None => {
                    &&& final(self).children@.len() == oc.len() - 1
                    &&& forall|j: int|
                        (left_idx as int) < j < final(self).children@.len()
                            ==> final(self).children@[j] == oc[j + 1]
                },
                Some(rv) => {
                    &&& final(self).children@.len() == oc.len()
                    &&& final(self).children@[left_idx as int + 1] == rv
                    &&& forall|j: int|
                        (left_idx as int) + 1 < j < final(self).children@.len()
                            ==> final(self).children@[j] == oc[j]
                },
            },
            Node::Internal(*final(self)).first_key() >= oc[0].first_key(),
            Node::Internal(*final(self)).last_key() <= oc.last().last_key(),
    {
        let ghost li = left_idx as int;
        let ghost lval = left;
        self.children.insert(left_idx, left);
        match right {
            None => {
                proof {
                    let mid = seq![lval];
                    let r2 = self.children@;
                    assert(r2.len() == oc.len() - 1);
                    assert(forall|i: int| 0 <= i < li ==> r2[i] == oc[i]);
                    assert(forall|j: int| 0 <= j < mid.len() ==> r2[li + j] == mid[j]);
                    assert(forall|i: int|
                        li + mid.len() <= i < r2.len() ==> r2[i] == oc[i - mid.len() + 2]);
                    lemma_entries_of_one(lval);
                    assert(entries_of(mid) == lval.entries());
                    lemma_rebalance_glue(oc, idx, li, query, mid, r2);
                    lemma_kids_run_wf(r2);
                }
                Internal::refresh_bounds(self);
            },
            Some(r) => {
                let ghost rval = r;
                self.children.insert(left_idx + 1, r);
                proof {
                    let mid = seq![lval, rval];
                    let r2 = self.children@;
                    assert(r2.len() == oc.len() as int);
                    assert(forall|i: int| 0 <= i < li ==> r2[i] == oc[i]);
                    assert(forall|j: int| 0 <= j < mid.len() ==> r2[li + j] == mid[j]);
                    assert(forall|i: int|
                        li + mid.len() <= i < r2.len() ==> r2[i] == oc[i - mid.len() + 2]);
                    lemma_entries_of_one(lval);
                    lemma_entries_of_one(rval);
                    lemma_entries_of_concat(seq![lval], seq![rval]);
                    assert(seq![lval] + seq![rval] =~= mid);
                    assert(entries_of(mid) == lval.entries() + rval.entries());
                    lemma_rebalance_glue(oc, idx, li, query, mid, r2);
                    lemma_kids_run_wf(r2);
                }
                Internal::refresh_bounds(self);
            },
        }
    }

    /// Build a new internal node over two adjacent sibling subtrees; used
    /// exactly once per height increase, when the root splits.
    pub(crate) fn wrap(left: Node<V, CAP>, right: Node<V, CAP>) -> (r: Internal<V, CAP>)
        requires
            cap_valid(CAP as int),
            left.inv(),
            right.inv(),
            min_fill(CAP as int) <= left.count(),
            min_fill(CAP as int) <= right.count(),
            left.height() == right.height(),
            left.last_key() < right.first_key(),
        ensures
            Node::Internal(r).inv(),
            r.children@ == seq![left, right],
            r.children@.len() == 2,
            Node::Internal(r).entries() == left.entries() + right.entries(),
            Node::Internal(r).height() == left.height() + 1,
            Node::Internal(r).first_key() == left.first_key(),
            Node::Internal(r).last_key() == right.last_key(),
    {
        let head = left.first();
        let tail = right.last();
        let mut children: Vec<Node<V, CAP>> = Vec::new();
        children.push(left);
        children.push(right);
        let r = Internal { head, tail, children };
        proof {
            reveal(kids_wf);
            let s = r.children@;
            assert(s =~= seq![left, right]);
            assert(s.len() == 2);
            assert(entries_of(s) == s[0].entries() + entries_of(s.drop_first()));
            assert(s.drop_first().len() == 1);
            assert(entries_of(s.drop_first()) == s.drop_first()[0].entries() + entries_of(
                s.drop_first().drop_first(),
            ));
            assert(s.drop_first().drop_first() =~= Seq::<Node<V, CAP>>::empty());
            assert(s.drop_first()[0] == s[1]);
            assert(s[1].entries() + Seq::<(u64, V)>::empty() =~= s[1].entries());
            assert(s[0].entries() + (s[1].entries() + Seq::<(u64, V)>::empty()) =~= s[0].entries()
                + s[1].entries());
        }
        r
    }
}

impl<V, const CAP: usize> Internal<V, CAP> {
    /// With the selected child already updated in place — and its new
    /// sibling, if it split, still in hand — splice the sibling in, split
    /// this node if that overflows it, and refresh the cached boundary
    /// keys.
    #[verifier::rlimit(100)]
    /// An overflowing splice has left this node's children as the lower
    /// half of the widened run and `upper` as the upper half: build the new
    /// right sibling over the upper half and refresh both boundary caches.
    #[verifier::rlimit(100)]
    fn finish_split(&mut self, upper: Vec<Node<V, CAP>>, Ghost(run2): Ghost<
        Seq<Node<V, CAP>>,
    >) -> (sib: Internal<V, CAP>)
        requires
            cap_valid(CAP as int),
            kids_wf(run2),
            forall|i: int| 0 <= i < run2.len() ==> (#[trigger] run2[i]).inv(),
            run2.len() >= 2,
            old(self).children@.len() == min_fill(CAP as int),
            upper@.len() == min_fill(CAP as int),
            old(self).children@ + upper@ == run2,
        ensures
            Node::Internal(*final(self)).inv(),
            Node::Internal(sib).inv(),
            final(self).children@.len() == min_fill(CAP as int),
            sib.children@.len() == min_fill(CAP as int),
            Node::Internal(*final(self)).entries() + Node::Internal(sib).entries()
                == entries_of(run2),
            Node::Internal(*final(self)).height() == 1 + run2[0].height(),
            Node::Internal(sib).height() == 1 + run2[0].height(),
            Node::Internal(*final(self)).last_key() < Node::Internal(sib).first_key(),
            Node::Internal(*final(self)).first_key() == run2[0].first_key(),
            Node::Internal(sib).last_key() == run2.last().last_key(),
    {
        let ghost mf = min_fill(CAP as int);
        proof {
            assert(self.children@ =~= run2.subrange(0, mf));
            assert(upper@ =~= run2.subrange(mf, run2.len() as int));
            lemma_kids_halves(run2, mf);
            lemma_kids_run_wf(run2.subrange(0, mf));
            lemma_kids_run_wf(run2.subrange(mf, run2.len() as int));
        }
        let uh = {
            let c = &upper[0];
            c.first()
        };
        let ul = {
            let c = &upper[upper.len() - 1];
            c.last()
        };
        let sib = Internal { head: uh, tail: ul, children: upper };
        Internal::refresh_bounds(self);
        sib
    }

    pub(crate) fn splice_child(&mut self, idx: usize, split: Option<Node<V, CAP>>, Ghost(oc): Ghost<
        Seq<Node<V, CAP>>,
    >, Ghost(key): Ghost<u64>, Ghost(value): Ghost<V>) -> (r: Option<Internal<V, CAP>>)
        requires
            cap_valid(CAP as int),
            kids_wf(oc),
            forall|i: int| 0 <= i < oc.len() ==> (#[trigger] oc[i]).inv(),
            1 <= oc.len() <= CAP,
            idx < oc.len(),
            old(self).children@ == oc.update(idx as int, old(self).children@[idx as int]),
            idx == 0 || oc[idx as int].first_key() <= key,
            idx as int + 1 < oc.len() ==> key < oc[idx as int + 1].first_key(),
            old(self).children@[idx as int].inv(),
            min_fill(CAP as int) <= old(self).children@[idx as int].count(),
            old(self).children@[idx as int].height() == oc[idx as int].height(),
            old(self).children@[idx as int].first_key() == (if key < oc[
                idx as int
            ].first_key() {
                key
            } else {
                oc[idx as int].first_key()
            }),
            match split {
                None => old(self).children@[idx as int].entries() == insert_sorted(
                    oc[idx as int].entries(),
                    key,
                    value,
                ) && old(self).children@[idx as int].last_key() == (if key > oc[
                    idx as int
                ].last_key() {
                    key
                } else {
                    oc[idx as int].last_key()
                }),
                Some(sibv) => {
                    &&& old(self).children@[idx as int].entries() + sibv.entries()
                        == insert_sorted(oc[idx as int].entries(), key, value)
                    &&& sibv.inv()
                    &&& min_fill(CAP as int) <= sibv.count()
                    &&& sibv.height() == oc[idx as int].height()
                    &&& old(self).children@[idx as int].last_key() < sibv.first_key()
                    &&& sibv.last_key() == (if key > oc[idx as int].last_key() {
                        key
                    } else {
                        oc[idx as int].last_key()
                    })
                },
            },
        ensures
            Node::Internal(*final(self)).inv(),
            Node::Internal(*final(self)).height() == 1 + oc[0].height(),
            final(self).children@.len() >= 1,
            split.is_none() ==> r.is_none(),
            match r {
                None => {
                    &&& Node::Internal(*final(self)).entries() == insert_sorted(
                        entries_of(oc),
                        key,
                        value,
                    )
                    &&& oc.len() <= final(self).children@.len() <= oc.len() + 1
                    &&& split.is_none() ==> final(self).children@.len() == oc.len()
                    &&& final(self).children@.len() <= CAP
                    &&& Node::Internal(*final(self)).first_key() == (if key < oc[
                        0
                    ].first_key() {
                        key
                    } else {
                        oc[0].first_key()
                    })
                    &&& Node::Internal(*final(self)).last_key() == (if key
                        > oc.last().last_key() {
                        key
                    } else {
                        oc.last().last_key()
                    })
                },
                Some(sib) => {
                    &&& Node::Internal(sib).inv()
                    &&& Node::Internal(sib).height() == 1 + oc[0].height()
                    &&& Node::Internal(*final(self)).entries() + Node::Internal(sib).entries()
                        == insert_sorted(entries_of(oc), key, value)
                    &&& oc.len() == CAP
                    &&& final(self).children@.len() == min_fill(CAP as int)
                    &&& sib.children@.len() == min_fill(CAP as int)
                    &&& Node::Internal(*final(self)).last_key() < Node::Internal(
                        sib,
                    ).first_key()
                    &&& Node::Internal(*final(self)).first_key() == (if key < oc[
                        0
                    ].first_key() {
                        key
                    } else {
                        oc[0].first_key()
                    })
                    &&& Node::Internal(sib).last_key() == (if key > oc.last().last_key() {
                        key
                    } else {
                        oc.last().last_key()
                    })
                },
            },
    {
        let ghost n0 = oc.len() as int;
        let ghost cnew = old(self).children@[idx as int];
        let ghost ea = entries_of(oc.subrange(0, idx as int));
        let ghost ec = oc[idx as int].entries();
        let ghost eb = entries_of(oc.subrange(idx as int + 1, n0));
        proof {
            assert(self.children@ == oc.update(idx as int, cnew));
            lemma_kids_run_wf(oc);
            lemma_key_in_run(oc, idx as int, key);
            assert(entries_of(oc) =~= ea + (ec + eb));
            lemma_insert_sorted_prefix(ea, ec + eb, key, value);
            lemma_insert_sorted_suffix(ec, eb, key, value);
        }
        match split {
            None => {
                proof {
                    lemma_kids_update(oc, idx as int, cnew, key);
                    lemma_entries_update(oc, idx as int, cnew);
                    assert(ea + cnew.entries() + eb =~= ea + (insert_sorted(ec, key, value)
                        + eb));
                    lemma_kids_run_wf(oc.update(idx as int, cnew));
                }
                Internal::refresh_bounds(self);
                None
            },
            Some(sib_node) => {
                let ghost sibv = sib_node;
                let ghost run2 = oc.update(idx as int, cnew).insert(idx as int + 1, sibv);
                proof {
                    lemma_kids_split(oc, idx as int, cnew, sibv, key);
                    lemma_entries_update_insert(oc, idx as int, cnew, sibv);
                    assert(ea + (cnew.entries() + sibv.entries()) + eb =~= ea + (insert_sorted(
                        ec,
                        key,
                        value,
                    ) + eb));
                    lemma_kids_run_wf(run2);
                }
                match insert_or_split::<Node<V, CAP>, CAP>(&mut self.children, idx + 1, sib_node) {
                    None => {
                        proof {
                            assert(self.children@ == run2);
                        }
                        Internal::refresh_bounds(self);
                        None
                    },
                    Some(upper) => {
                        let sib = Internal::finish_split(self, upper, Ghost(run2));
                        Some(sib)
                    },
                }
            },
        }
    }
}

} // verus!
