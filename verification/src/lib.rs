//! An ordered map held as a B-plus-style tree of fixed-capacity nodes:
//! sorted runs of entries in the leaves, cached boundary keys in the
//! internal nodes, splitting on overflow and borrowing or merging on
//! underflow.

use vstd::prelude::*;

pub mod checked;
pub mod model;
pub mod shared_checked;
pub mod shared_unchecked;
pub mod node;
mod internal;
mod leaf;

verus! {

use crate::model::as_map;
use crate::model::has_key;
use crate::model::insert_sorted;
use crate::model::lemma_as_map_get;
use crate::model::lemma_as_map_insert;
use crate::model::lemma_as_map_len;
use crate::model::lemma_as_map_remove;
use crate::model::lemma_insert_sorted_len;
use crate::model::lemma_insert_sorted_sorted;
use crate::model::lemma_remove_key_absent;
use crate::model::lemma_remove_key_sorted;
use crate::model::lemma_seq_get_some;
use crate::model::remove_key;
use crate::model::strictly_sorted;
use crate::node::cap_valid;
use crate::node::lemma_node_bounds;
use crate::node::min_fill;
use crate::node::Internal;
use crate::node::Leaf;
use crate::node::Node;

/// An ordered key-value map with fixed odd node capacity `CAP`.
pub struct BTreeMap<V, const CAP: usize> {
    pub root: Option<Node<V, CAP>>,
    pub length: usize,
}

impl<V, const CAP: usize> BTreeMap<V, CAP> {
    /// The ordered run of entries the map holds.
    pub open spec fn entry_seq(self) -> Seq<(u64, V)> {
        match self.root {
            None => Seq::empty(),
            Some(r) => r.entries(),
        }
    }

    /// The plain map the structure denotes.
    pub open spec fn map_view(self) -> Map<u64, V> {
        as_map(self.entry_seq())
    }

    /// The structure invariant: a well-formed tree whose entry count is the
    /// cached length, with a root that is never a trivial internal node.
    pub open spec fn well_formed(self) -> bool {
        cap_valid(CAP as int) && match self.root {
            None => self.length == 0,
            Some(r) => {
                &&& r.inv()
                &&& r.count() >= 1
                &&& r.entries().len() == self.length
                &&& self.length >= 1
                &&& (r is Internal ==> r.count() >= 2)
            },
        }
    }

    /// An empty map. The capacity must be odd and large enough for a split
    /// to leave both halves at the minimum fill.
    pub fn new() -> (r: Self)
        requires
            cap_valid(CAP as int),
        ensures
            r.well_formed(),
            r.entry_seq() == Seq::<(u64, V)>::empty(),
            r.map_view() == Map::<u64, V>::empty(),
    {
        BTreeMap { root: None, length: 0 }
    }

    /// How many entries the map holds.
    pub fn len(&self) -> (r: usize)
        requires
            self.well_formed(),
        ensures
            r == self.entry_seq().len(),
    {
        self.length
    }

    /// Whether the map holds no entry.
    pub fn is_empty(&self) -> (r: bool)
        requires
            self.well_formed(),
        ensures
            r == (self.entry_seq().len() == 0),
    {
        self.length == 0
    }

    /// Look a key up and hand back the entry that carries it, if any.
    pub fn entry(&self, query: u64) -> (r: Option<(u64, &V)>)
        requires
            self.well_formed(),
        ensures
            match r {
                Some((k, v)) => k == query && self.map_view().contains_key(query) && *v
                    == self.map_view()[query],
                None => !self.map_view().contains_key(query),
            },
    {
        match self.get(query) {
            Some(v) => Some((query, v)),
            None => None,
        }
    }

    /// Look a key up.
    pub fn get(&self, query: u64) -> (r: Option<&V>)
        requires
            self.well_formed(),
        ensures
            match r {
                Some(v) => self.map_view().contains_key(query) && *v == self.map_view()[query],
                None => !self.map_view().contains_key(query),
            },
    {
        proof {
            self.lemma_view_facts();
            lemma_as_map_get(self.entry_seq(), query);
        }
        match &self.root {
            None => None,
            Some(root) => {
                if root.first() > query {
                    proof {
                        lemma_node_bounds(*root);
                        lemma_seq_get_some(root.entries(), query);
                    }
                    None
                } else {
                    root.get(query)
                }
            },
        }
    }

    /// Look a key up and hand back exclusive access to its value, if any.
    /// Only the value behind the handle can change: the keys, the order and
    /// the length stay as they are.
    pub fn get_mut(&mut self, query: u64) -> (r: Option<&mut V>)
        requires
            old(self).well_formed(),
        ensures
            final(self).well_formed(),
            final(self).entry_seq().len() == old(self).entry_seq().len(),
            match r {
                None => final(self).entry_seq() == old(self).entry_seq() && !old(
                    self,
                ).map_view().contains_key(query),
                Some(v) => {
                    &&& old(self).map_view().contains_key(query)
                    &&& *v == old(self).map_view()[query]
                    &&& final(self).entry_seq() == insert_sorted(
                        old(self).entry_seq(),
                        query,
                        *final(v),
                    )
                    &&& final(self).map_view() == old(self).map_view().insert(
                        query,
                        *final(v),
                    )
                },
            },
    {
        proof {
            self.lemma_view_facts();
            lemma_as_map_get(self.entry_seq(), query);
            assert forall|v: V|
                as_map(#[trigger] insert_sorted(old(self).entry_seq(), query, v)) == old(
                    self,
                ).map_view().insert(query, v) by {
                lemma_as_map_insert(old(self).entry_seq(), query, v);
            }
            assert forall|v: V|
                (#[trigger] insert_sorted(old(self).entry_seq(), query, v)).len() == old(
                    self,
                ).entry_seq().len() + (if has_key(old(self).entry_seq(), query) {
                    0int
                } else {
                    1int
                }) by {
                lemma_insert_sorted_len(old(self).entry_seq(), query, v);
            }
        }
        match &mut self.root {
            None => None,
            Some(node) => {
                if node.first() > query {
                    proof {
                        lemma_node_bounds(*node);
                        lemma_seq_get_some(node.entries(), query);
                    }
                    None
                } else {
                    proof {
                        lemma_seq_get_some(node.entries(), query);
                    }
                    Node::get_mut(node, query)
                }
            },
        }
    }

    /// Look a key up and hand back the key together with exclusive access
    /// to its value, if any.
    pub fn entry_mut(&mut self, query: u64) -> (r: Option<(u64, &mut V)>)
        requires
            old(self).well_formed(),
        ensures
            final(self).well_formed(),
            final(self).entry_seq().len() == old(self).entry_seq().len(),
            match r {
                None => final(self).entry_seq() == old(self).entry_seq() && !old(
                    self,
                ).map_view().contains_key(query),
                Some((k, v)) => {
                    &&& k == query
                    &&& old(self).map_view().contains_key(query)
                    &&& *v == old(self).map_view()[query]
                    &&& final(self).entry_seq() == insert_sorted(
                        old(self).entry_seq(),
                        query,
                        *final(v),
                    )
                    &&& final(self).map_view() == old(self).map_view().insert(
                        query,
                        *final(v),
                    )
                },
            },
    {
        match self.get_mut(query) {
            Some(v) => Some((query, v)),
            None => None,
        }
    }

    /// A well-formed map holds a sorted entry run, and the run denotes the
    /// map view entry by entry.
    pub proof fn lemma_view_facts(self)
        requires
            self.well_formed(),
        ensures
            strictly_sorted(self.entry_seq()),
            self.map_view().dom().finite(),
            self.map_view().dom().len() == self.entry_seq().len(),
            forall|k: u64|
                self.map_view().contains_key(k) == has_key(self.entry_seq(), k),
    {
        match self.root {
            None => {
                assert(self.entry_seq() =~= Seq::<(u64, V)>::empty());
            },
            Some(r) => {
                lemma_node_bounds(r);
            },
        }
        lemma_as_map_len(self.entry_seq());
        assert forall|k: u64| self.map_view().contains_key(k) == has_key(
            self.entry_seq(),
            k,
        ) by {
            lemma_as_map_get(self.entry_seq(), k);
        }
    }

    /// Upsert: an existing key has its value replaced and the previous
    /// value handed back; a new key is inserted in order.
    pub fn insert(&mut self, key: u64, value: V) -> (r: Option<V>)
        requires
            old(self).well_formed(),
            old(self).entry_seq().len() < usize::MAX,
        ensures
            final(self).well_formed(),
            final(self).map_view() == old(self).map_view().insert(key, value),
            final(self).entry_seq() == insert_sorted(old(self).entry_seq(), key, value),
            r == (if old(self).map_view().contains_key(key) {
                Some(old(self).map_view()[key])
            } else {
                None
            }),
            final(self).entry_seq().len() == old(self).entry_seq().len() + (
            if old(self).map_view().contains_key(key) {
                0int
            } else {
                1int
            }),
    {
        match self.insert_entry(key, value) {
            Some((_, v)) => Some(v),
            None => None,
        }
    }

    /// Upsert, handing back the previous entry for the key if there was
    /// one.
    pub fn insert_entry(&mut self, key: u64, value: V) -> (r: Option<(u64, V)>)
        requires
            old(self).well_formed(),
            old(self).entry_seq().len() < usize::MAX,
        ensures
            final(self).well_formed(),
            final(self).map_view() == old(self).map_view().insert(key, value),
            final(self).entry_seq() == insert_sorted(old(self).entry_seq(), key, value),
            r == (if old(self).map_view().contains_key(key) {
                Some((key, old(self).map_view()[key]))
            } else {
                None
            }),
            final(self).entry_seq().len() == old(self).entry_seq().len() + (
            if old(self).map_view().contains_key(key) {
                0int
            } else {
                1int
            }),
    {
        proof {
            self.lemma_view_facts();
            lemma_as_map_get(self.entry_seq(), key);
            lemma_as_map_insert(self.entry_seq(), key, value);
            lemma_insert_sorted_len(self.entry_seq(), key, value);
            lemma_insert_sorted_sorted(self.entry_seq(), key, value);
        }
        let prev: Option<V> = match self.root.take() {
            Some(mut node) => {
                proof {
                    lemma_seq_get_some(node.entries(), key);
                }
                let (prev, sib) = node.insert(key, value);
                match sib {
                    Some(s) => {
                        let parent = Internal::wrap(node, s);
                        self.root = Some(Node::Internal(parent));
                    },
                    None => {
                        self.root = Some(node);
                    },
                }
                prev
            },
            None => {
                self.root = Some(Node::Leaf(Leaf::new((key, value))));
                proof {
                    assert(insert_sorted(old(self).entry_seq(), key, value) =~= seq![
                        (key, value),
                    ]);
                }
                None
            },
        };
        match prev {
            Some(v) => Some((key, v)),
            None => {
                self.length = self.length + 1;
                None
            },
        }
    }

    /// Order invariant: the entries of a well-formed map, walked in tree
    /// order, carry strictly increasing keys — in particular no key
    /// repeats — and the walk denotes the map view exactly.
    pub proof fn lemma_order_invariant(self)
        requires
            self.well_formed(),
        ensures
            strictly_sorted(self.entry_seq()),
            self.map_view().dom().len() == self.entry_seq().len(),
    {
        self.lemma_view_facts();
    }

    /// Fill invariant: in a well-formed map, every node below the root
    /// holds between the minimum fill and the capacity.
    pub proof fn lemma_fill_invariant(self)
        requires
            self.well_formed(),
        ensures
            match self.root {
                None => true,
                Some(r) => crate::node::sub_fill_ok(r),
            },
    {
        match self.root {
            None => {},
            Some(r) => {
                crate::node::lemma_inv_fill(r);
            },
        }
    }

    /// Boundary-cache invariant: in a well-formed map, every internal
    /// node's `head` and `tail` equal the first and last key of its
    /// subtree's entries.
    pub proof fn lemma_boundary_caches(self)
        requires
            self.well_formed(),
        ensures
            match self.root {
                None => true,
                Some(r) => crate::node::caches_ok(r),
            },
    {
        match self.root {
            None => {},
            Some(r) => {
                crate::node::lemma_inv_caches(r);
            },
        }
    }

    /// Round trip, inserting: after an upsert of `key` with `value`, the
    /// map holds `value` under `key`, and the entry count grew by one
    /// exactly when the key was previously absent.
    pub proof fn lemma_insert_round_trip(self, after: Self, key: u64, value: V)
        requires
            self.well_formed(),
            after.well_formed(),
            after.map_view() == self.map_view().insert(key, value),
        ensures
            after.map_view().contains_key(key),
            after.map_view()[key] == value,
            after.entry_seq().len() == self.entry_seq().len() + (
            if self.map_view().contains_key(key) {
                0int
            } else {
                1int
            }),
    {
        self.lemma_view_facts();
        after.lemma_view_facts();
        assert(after.map_view().dom() =~= self.map_view().dom().insert(key));
        vstd::set::axiom_set_insert_len(self.map_view().dom(), key);
    }

    /// Round trip, removing: after a removal of `key`, the map no longer
    /// holds it, and the entry count shrank by one exactly when the key
    /// was previously present.
    pub proof fn lemma_remove_round_trip(self, after: Self, key: u64)
        requires
            self.well_formed(),
            after.well_formed(),
            after.map_view() == self.map_view().remove(key),
        ensures
            !after.map_view().contains_key(key),
            after.entry_seq().len() == self.entry_seq().len() - (
            if self.map_view().contains_key(key) {
                1int
            } else {
                0int
            }),
    {
        self.lemma_view_facts();
        after.lemma_view_facts();
        assert(after.map_view().dom() =~= self.map_view().dom().remove(key));
        vstd::set::axiom_set_remove_len(self.map_view().dom(), key);
    }

    /// Remove a key if present, handing back its value.
    pub fn remove(&mut self, query: u64) -> (r: Option<V>)
        requires
            old(self).well_formed(),
        ensures
            final(self).well_formed(),
            r.is_none() ==> *final(self) == *old(self),
            final(self).map_view() == old(self).map_view().remove(query),
            final(self).entry_seq() == remove_key(old(self).entry_seq(), query),
            r == (if old(self).map_view().contains_key(query) {
                Some(old(self).map_view()[query])
            } else {
                None
            }),
            final(self).entry_seq().len() == old(self).entry_seq().len() - (
            if old(self).map_view().contains_key(query) {
                1int
            } else {
                0int
            }),
    {
        match self.remove_entry(query) {
            Some((_, v)) => Some(v),
            None => None,
        }
    }

    /// Remove a key if present, handing back the removed entry. A miss
    /// leaves the map untouched, the tree structure included.
    pub fn remove_entry(&mut self, query: u64) -> (r: Option<(u64, V)>)
        requires
            old(self).well_formed(),
        ensures
            final(self).well_formed(),
            r.is_none() ==> *final(self) == *old(self),
            final(self).map_view() == old(self).map_view().remove(query),
            final(self).entry_seq() == remove_key(old(self).entry_seq(), query),
            r == (if old(self).map_view().contains_key(query) {
                Some((query, old(self).map_view()[query]))
            } else {
                None
            }),
            final(self).entry_seq().len() == old(self).entry_seq().len() - (
            if old(self).map_view().contains_key(query) {
                1int
            } else {
                0int
            }),
    {
        proof {
            self.lemma_view_facts();
            lemma_as_map_get(self.entry_seq(), query);
            lemma_as_map_remove(self.entry_seq(), query);
            lemma_remove_key_sorted(self.entry_seq(), query);
        }
        match self.root.take() {
            None => {
                proof {
                    assert(remove_key(old(self).entry_seq(), query) =~= Seq::<(u64, V)>::empty());
                }
                None
            },
            Some(mut node) => {
                if node.first() > query {
                    proof {
                        lemma_node_bounds(node);
                        lemma_seq_get_some(node.entries(), query);
                        lemma_remove_key_absent(node.entries(), query);
                    }
                    self.root = Some(node);
                    return None;
                }
                let present = node.get(query).is_some();
                if !present {
                    proof {
                        lemma_remove_key_absent(node.entries(), query);
                    }
                    self.root = Some(node);
                    return None;
                }
                proof {
                    lemma_seq_get_some(node.entries(), query);
                }
                match node.remove(query) {
                    None => {
                        proof {
                            assert(false);
                        }
                        vstd::pervasive::unreached()
                    },
                    Some((pair, deficient)) => {
                        self.length = self.length - 1;
                        if self.length == 0 {
                            self.root = None;
                        } else if deficient {
                            match node.pop_depth() {
                                Some(promoted) => {
                                    self.root = Some(promoted);
                                },
                                None => {
                                    self.root = Some(node);
                                },
                            }
                        } else {
                            self.root = Some(node);
                        }
                        Some(pair)
                    },
                }
            },
        }
    }
}

/// Insert `new` at position `idx`, or, when the buffer is full, split it at
/// the minimum-fill mark and route `new` into whichever half its position
/// falls in, returning the upper half. Both halves come out at exactly the
/// minimum fill.
pub(crate) fn insert_or_split<T, const CAP: usize>(buf: &mut Vec<T>, idx: usize, new: T) -> (r:
    Option<Vec<T>>)
    requires
        cap_valid(CAP as int),
        idx <= old(buf)@.len(),
        old(buf)@.len() <= CAP,
    ensures
        match r {
            None => old(buf)@.len() < CAP && final(buf)@ == old(buf)@.insert(idx as int, new),
            Some(nb) => {
                &&& old(buf)@.len() == CAP
                &&& final(buf)@ + nb@ == old(buf)@.insert(idx as int, new)
                &&& final(buf)@.len() == min_fill(CAP as int)
                &&& nb@.len() == min_fill(CAP as int)
            },
        },
{
    if buf.len() < CAP {
        buf.insert(idx, new);
        return None;
    }
    let b: usize = CAP / 2 + 1;
    let ghost orig = buf@;
    if idx < b {
        let upper = buf.split_off(b - 1);
        buf.insert(idx, new);
        proof {
            assert(buf@ + upper@ =~= orig.insert(idx as int, new));
        }
        Some(upper)
    } else {
        let mut upper = buf.split_off(b);
        upper.insert(idx - b, new);
        proof {
            assert(buf@ + upper@ =~= orig.insert(idx as int, new));
        }
        Some(upper)
    }
}

} // verus!
