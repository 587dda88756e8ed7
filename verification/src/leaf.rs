//! Leaf-level operations: sorted lookup, upsert with splitting, removal,
//! and the borrow-or-merge step between two adjacent leaves.

use vstd::prelude::*;

use crate::insert_or_split;
use crate::model::insert_sorted;
use crate::model::lemma_insert_sorted_at;
use crate::model::lemma_insert_sorted_replaces;
use crate::model::lemma_insert_sorted_sorted;
use crate::model::lemma_remove_key_at;
use crate::model::lemma_seq_get_index;
use crate::model::lemma_seq_get_some;
use crate::model::remove_key;
use crate::model::seq_get;
use crate::model::strictly_sorted;
use crate::node::cap_valid;
use crate::node::min_fill;
use crate::node::Leaf;

verus! {

/// Find the position of `query` in a sorted entry run: the index that
/// carries it, or, when absent, the index where it would be inserted.
pub(crate) fn query_idx<V>(entries: &Vec<(u64, V)>, query: u64) -> (r: Result<usize, usize>)
    requires
        strictly_sorted(entries@),
    ensures
        match r {
            Ok(i) => i < entries@.len() && entries@[i as int].0 == query,
            Err(i) => {
                &&& i <= entries@.len()
                &&& forall|j: int| 0 <= j < i ==> (#[trigger] entries@[j]).0 < query
                &&& forall|j: int|
                    i <= j < entries@.len() ==> (#[trigger] entries@[j]).0 > query
            },
        },
{
    let n = entries.len();
    let mut i: usize = 0;
    while i < n
        invariant
            strictly_sorted(entries@),
            n == entries@.len(),
            i <= n,
            forall|j: int| 0 <= j < i ==> (#[trigger] entries@[j]).0 < query,
        decreases n - i,
    {
        let e = &entries[i];
        if e.0 > query {
            return Err(i);
        }
        if e.0 == query {
            return Ok(i);
        }
        i += 1;
    }
    Err(n)
}

impl<V, const CAP: usize> Leaf<V, CAP> {
    /// A leaf is well-formed when its entries are sorted and within capacity.
    pub open spec fn wf(self) -> bool {
        self.entries@.len() <= CAP && strictly_sorted(self.entries@)
    }

    /// A leaf holding a single entry.
    pub fn new(entry: (u64, V)) -> (r: Self)
        ensures
            r.entries@ == seq![entry],
    {
        let mut entries: Vec<(u64, V)> = Vec::new();
        entries.push(entry);
        proof {
            assert(entries@ =~= seq![entry]);
        }
        Leaf { entries }
    }

    /// The first key held.
    pub fn first(&self) -> (r: u64)
        requires
            self.entries@.len() >= 1,
        ensures
            r == self.entries@.first().0,
    {
        let e = &self.entries[0];
        e.0
    }

    /// The last key held.
    pub fn last(&self) -> (r: u64)
        requires
            self.entries@.len() >= 1,
        ensures
            r == self.entries@.last().0,
    {
        let e = &self.entries[self.entries.len() - 1];
        e.0
    }

    /// Upsert into the leaf. An existing key has its value replaced and the
    /// previous value handed back; a new key is inserted at its sorted
    /// position, splitting the leaf when it is already full.
    pub(crate) fn insert(&mut self, key: u64, value: V) -> (r: (Option<V>, Option<Self>))
        requires
            cap_valid(CAP as int),
            old(self).wf(),
            old(self).entries@.len() >= 1,
        ensures
            r.0 == seq_get(old(self).entries@, key),
            r.0.is_some() ==> r.1.is_none() && final(self).entries@.len()
                == old(self).entries@.len(),
            match r.1 {
                None => {
                    &&& final(self).wf()
                    &&& final(self).entries@ == insert_sorted(old(self).entries@, key, value)
                    &&& old(self).entries@.len() <= final(self).entries@.len()
                        <= old(self).entries@.len() + 1
                },
                Some(sib) => {
                    &&& r.0.is_none()
                    &&& final(self).wf()
                    &&& sib.wf()
                    &&& final(self).entries@ + sib.entries@ == insert_sorted(
                        old(self).entries@,
                        key,
                        value,
                    )
                    &&& old(self).entries@.len() == CAP
                    &&& final(self).entries@.len() == min_fill(CAP as int)
                    &&& sib.entries@.len() == min_fill(CAP as int)
                    &&& final(self).entries@.last().0 < sib.entries@.first().0
                },
            },
    {
        let ghost orig = self.entries@;
        match query_idx(&self.entries, key) {
            Ok(i) => {
                proof {
                    lemma_seq_get_index(orig, i as int);
                    lemma_insert_sorted_replaces(orig, i as int, key, value);
                }
                let old_pair = self.entries.remove(i);
                self.entries.insert(i, (key, value));
                proof {
                    assert(self.entries@ =~= orig.update(i as int, (key, value)));
                    assert(strictly_sorted(self.entries@)) by {
                        assert(forall|j: int|
                            0 <= j < self.entries@.len() ==> (#[trigger] self.entries@[j]).0
                                == orig[j].0);
                    }
                }
                (Some(old_pair.1), None)
            },
            Err(i) => {
                proof {
                    lemma_insert_sorted_at(orig, i as int, key, value);
                    lemma_seq_get_some(orig, key);
                    lemma_insert_sorted_sorted(orig, key, value);
                }
                match insert_or_split::<(u64, V), CAP>(&mut self.entries, i, (key, value)) {
                    None => {
                        proof {
                            assert(self.entries@ == insert_sorted(orig, key, value));
                        }
                        (None, None)
                    },
                    Some(upper) => {
                        let sib = Leaf { entries: upper };
                        proof {
                            let whole = insert_sorted(orig, key, value);
                            let lo = self.entries@;
                            let hi = sib.entries@;
                            assert(lo + hi == whole);
                            assert(forall|j: int| 0 <= j < lo.len() ==> lo[j] == whole[j]);
                            assert(forall|j: int|
                                0 <= j < hi.len() ==> hi[j] == whole[j + lo.len()]);
                            assert(strictly_sorted(lo));
                            assert(strictly_sorted(hi));
                            assert(lo.last() == whole[lo.len() - 1]);
                            assert(hi.first() == whole[lo.len() as int]);
                        }
                        (None, Some(sib))
                    },
                }
            },
        }
    }

    /// Remove `query` from the leaf if present, reporting whether the leaf
    /// fell below the minimum fill.
    pub(crate) fn remove(&mut self, query: u64) -> (r: Option<((u64, V), bool)>)
        requires
            cap_valid(CAP as int),
            old(self).wf(),
        ensures
            match r {
                None => *final(self) == *old(self) && seq_get(old(self).entries@, query)
                    == None::<V>,
                Some(((k, v), deficient)) => {
                    &&& k == query
                    &&& seq_get(old(self).entries@, query) == Some(v)
                    &&& final(self).wf()
                    &&& final(self).entries@ == remove_key(old(self).entries@, query)
                    &&& final(self).entries@.len() == old(self).entries@.len() - 1
                    &&& deficient == (final(self).entries@.len() < min_fill(CAP as int))
                },
            },
    {
        let ghost orig = self.entries@;
        match query_idx(&self.entries, query) {
            Ok(i) => {
                proof {
                    lemma_seq_get_index(orig, i as int);
                    lemma_remove_key_at(orig, i as int, query);
                }
                let pair = self.entries.remove(i);
                let b: usize = CAP / 2 + 1;
                proof {
                    assert(strictly_sorted(self.entries@)) by {
                        assert(forall|j: int|
                            0 <= j < self.entries@.len() ==> self.entries@[j] == orig.remove(
                                i as int,
                            )[j]);
                    }
                }
                Some((pair, self.entries.len() < b))
            },
            Err(_) => {
                proof {
                    lemma_seq_get_some(orig, query);
                }
                None
            },
        }
    }

    /// Rebalance two adjacent leaves, one of which sits just below the
    /// minimum fill: move one boundary entry across when the donor can spare
    /// it, otherwise drain the right leaf into the left and report it
    /// consumed.
    pub(crate) fn balance_or_drain(&mut self, next: &mut Self, lacking_next: bool) -> (drained:
        bool)
        requires
            cap_valid(CAP as int),
            old(self).wf(),
            old(next).wf(),
            old(self).entries@.len() >= 1,
            old(next).entries@.len() >= 1,
            old(self).entries@.last().0 < old(next).entries@.first().0,
            lacking_next ==> old(next).entries@.len() == min_fill(CAP as int) - 1
                && old(self).entries@.len() >= min_fill(CAP as int),
            !lacking_next ==> old(self).entries@.len() == min_fill(CAP as int) - 1
                && old(next).entries@.len() >= min_fill(CAP as int),
        ensures
            final(self).wf(),
            drained == (if lacking_next {
                old(self).entries@.len() == min_fill(CAP as int)
            } else {
                old(next).entries@.len() == min_fill(CAP as int)
            }),
            if drained {
                &&& final(self).entries@ == old(self).entries@ + old(next).entries@
                &&& final(next).entries@.len() == 0
                &&& final(self).entries@.len() == old(self).entries@.len()
                    + old(next).entries@.len()
                &&& final(self).entries@.len() <= CAP
                &&& final(self).entries@.first().0 == old(self).entries@.first().0
                &&& final(self).entries@.last().0 == old(next).entries@.last().0
            } else {
                &&& final(next).wf()
                &&& final(self).entries@ + final(next).entries@ == old(self).entries@
                    + old(next).entries@
                &&& (if lacking_next {
                    final(self).entries@ == old(self).entries@.drop_last()
                        && final(next).entries@ == seq![old(self).entries@.last()]
                        + old(next).entries@
                } else {
                    final(self).entries@ == old(self).entries@.push(old(next).entries@.first())
                        && final(next).entries@ == old(next).entries@.drop_first()
                })
                &&& (if lacking_next {
                    final(next).entries@.len() == min_fill(CAP as int)
                        && final(self).entries@.len() == old(self).entries@.len() - 1
                } else {
                    final(self).entries@.len() == min_fill(CAP as int)
                        && final(next).entries@.len() == old(next).entries@.len() - 1
                })
                &&& final(self).entries@.len() >= min_fill(CAP as int)
                &&& final(next).entries@.len() >= min_fill(CAP as int)
                &&& final(self).entries@.len() <= CAP
                &&& final(next).entries@.len() <= CAP
                &&& final(self).entries@.last().0 < final(next).entries@.first().0
                &&& final(self).entries@.first().0 == old(self).entries@.first().0
                &&& final(next).entries@.last().0 == old(next).entries@.last().0
            },
    {
        let ghost sa = self.entries@;
        let ghost sb = next.entries@;
        let b: usize = CAP / 2 + 1;

        if lacking_next && self.entries.len() > b {
            let moved = self.entries.pop().unwrap();
            next.entries.insert(0, moved);
            proof {
                assert(self.entries@ + next.entries@ =~= sa + sb);
                assert(forall|j: int|
                    0 <= j < self.entries@.len() ==> self.entries@[j] == sa[j]);
                assert(forall|j: int|
                    0 <= j < sb.len() ==> next.entries@[j + 1] == sb[j]);
                assert(next.entries@[0] == sa.last());
                assert(self.entries@ =~= sa.drop_last());
                assert(next.entries@ =~= seq![sa.last()] + sb);
                assert(strictly_sorted(self.entries@));
                assert(strictly_sorted(next.entries@)) by {
                    assert(forall|x: int|
                        0 <= x < sb.len() ==> sa.last().0 < (#[trigger] sb[x]).0);
                }
                assert(self.entries@.last().0 < next.entries@.first().0);
            }
            return false;
        }

        if !lacking_next && next.entries.len() > b {
            let moved = next.entries.remove(0);
            self.entries.push(moved);
            proof {
                assert(self.entries@ + next.entries@ =~= sa + sb);
                assert(forall|j: int| 0 <= j < sa.len() ==> self.entries@[j] == sa[j]);
                assert(self.entries@.last() == sb.first());
                assert(self.entries@ =~= sa.push(sb.first()));
                assert(next.entries@ =~= sb.drop_first());
                assert(forall|j: int|
                    0 <= j < next.entries@.len() ==> next.entries@[j] == sb[j + 1]);
                assert(strictly_sorted(next.entries@));
                assert(strictly_sorted(self.entries@)) by {
                    assert(forall|x: int|
                        0 <= x < sa.len() ==> (#[trigger] sa[x]).0 < sb.first().0);
                }
            }
            return false;
        }

        self.entries.append(&mut next.entries);
        proof {
            assert(self.entries@ == sa + sb);
            assert(forall|j: int| 0 <= j < sa.len() ==> self.entries@[j] == sa[j]);
            assert(forall|j: int| 0 <= j < sb.len() ==> self.entries@[j + sa.len()] == sb[j]);
            assert(strictly_sorted(self.entries@)) by {
                assert(forall|x: int, y: int|
                    0 <= x < sa.len() && 0 <= y < sb.len() ==> (#[trigger] sa[x]).0 < (
                    #[trigger] sb[y]).0);
            }
            assert(self.entries@.first() == sa.first());
            assert(self.entries@.last() == sb.last());
        }
        true
    }
}

} // verus!
