//! The mathematical model of an ordered map held as a sorted sequence of
//! key-value entries, together with the lemmas that relate the sequence
//! operations to the operations of a plain map.

use vstd::prelude::*;

verus! {

/// The keys of `s` are strictly increasing; in particular no key repeats.
pub open spec fn strictly_sorted<V>(s: Seq<(u64, V)>) -> bool {
    forall|i: int, j: int| 0 <= i < j < s.len() ==> s[i].0 < s[j].0
}

/// Whether some entry of `s` carries the key `k`.
pub open spec fn has_key<V>(s: Seq<(u64, V)>, k: u64) -> bool {
    exists|i: int| 0 <= i < s.len() && s[i].0 == k
}

/// The value stored under `k` by the first entry that carries it.
pub open spec fn seq_get<V>(s: Seq<(u64, V)>, k: u64) -> Option<V>
    decreases s.len(),
{
    if s.len() == 0 {
        None
    } else if s[0].0 == k {
        Some(s[0].1)
    } else {
        seq_get(s.drop_first(), k)
    }
}

/// `s` with `(k, v)` inserted at its sorted position, replacing the entry
/// that carried `k` if there was one.
pub open spec fn insert_sorted<V>(s: Seq<(u64, V)>, k: u64, v: V) -> Seq<(u64, V)>
    decreases s.len(),
{
    if s.len() == 0 {
        seq![(k, v)]
    } else if k < s[0].0 {
        seq![(k, v)] + s
    } else if k == s[0].0 {
        s.update(0, (k, v))
    } else {
        seq![s[0]] + insert_sorted(s.drop_first(), k, v)
    }
}

/// `s` with the first entry that carries `k` removed.
pub open spec fn remove_key<V>(s: Seq<(u64, V)>, k: u64) -> Seq<(u64, V)>
    decreases s.len(),
{
    if s.len() == 0 {
        s
    } else if s[0].0 == k {
        s.drop_first()
    } else {
        seq![s[0]] + remove_key(s.drop_first(), k)
    }
}

/// The plain map that the entry run denotes.
pub open spec fn as_map<V>(s: Seq<(u64, V)>) -> Map<u64, V>
    decreases s.len(),
{
    if s.len() == 0 {
        Map::empty()
    } else {
        as_map(s.drop_first()).insert(s[0].0, s[0].1)
    }
}

/// `seq_get` answers `Some` exactly on the keys that occur in `s`, and when
/// `s` has no repeated keys it returns the value stored beside the key.
pub proof fn lemma_seq_get_some<V>(s: Seq<(u64, V)>, k: u64)
    ensures
        seq_get(s, k).is_some() <==> has_key(s, k),
    decreases s.len(),
{
    if s.len() > 0 && s[0].0 != k {
        lemma_seq_get_some(s.drop_first(), k);
        assert(has_key(s.drop_first(), k) ==> has_key(s, k)) by {
            if has_key(s.drop_first(), k) {
                let i = choose|i: int| 0 <= i < s.drop_first().len() && s.drop_first()[i].0 == k;
                assert(s[i + 1].0 == k);
            }
        }
        if has_key(s, k) {
            let i = choose|i: int| 0 <= i < s.len() && s[i].0 == k;
            assert(s.drop_first()[i - 1].0 == k);
        }
    }
}

/// The value beside a key of a run without repeated keys is what `seq_get`
/// answers for that key.
pub proof fn lemma_seq_get_index<V>(s: Seq<(u64, V)>, i: int)
    requires
        0 <= i < s.len(),
        forall|j: int| 0 <= j < i ==> s[j].0 != s[i].0,
    ensures
        seq_get(s, s[i].0) == Some(s[i].1),
    decreases i,
{
    if i > 0 {
        lemma_seq_get_index(s.drop_first(), i - 1);
    }
}

/// Entries whose keys all differ from `k` contribute nothing to `seq_get`:
/// a prefix of such entries can be peeled off.
pub proof fn lemma_seq_get_prefix<V>(a: Seq<(u64, V)>, rest: Seq<(u64, V)>, k: u64)
    requires
        forall|i: int| 0 <= i < a.len() ==> a[i].0 != k,
    ensures
        seq_get(a + rest, k) == seq_get(rest, k),
    decreases a.len(),
{
    if a.len() == 0 {
        assert(a + rest =~= rest);
    } else {
        assert((a + rest).drop_first() =~= a.drop_first() + rest);
        lemma_seq_get_prefix(a.drop_first(), rest, k);
    }
}

/// Nor does a suffix of such entries change the answer.
pub proof fn lemma_seq_get_suffix<V>(c: Seq<(u64, V)>, b: Seq<(u64, V)>, k: u64)
    requires
        forall|i: int| 0 <= i < b.len() ==> b[i].0 != k,
    ensures
        seq_get(c + b, k) == seq_get(c, k),
    decreases c.len(),
{
    if c.len() == 0 {
        assert(c + b =~= b);
        lemma_seq_get_some(b, k);
    } else {
        assert((c + b).drop_first() =~= c.drop_first() + b);
        lemma_seq_get_suffix(c.drop_first(), b, k);
    }
}

/// A prefix of entries with keys below `k` passes through `insert_sorted`.
pub proof fn lemma_insert_sorted_prefix<V>(a: Seq<(u64, V)>, rest: Seq<(u64, V)>, k: u64, v: V)
    requires
        forall|i: int| 0 <= i < a.len() ==> a[i].0 < k,
    ensures
        insert_sorted(a + rest, k, v) == a + insert_sorted(rest, k, v),
    decreases a.len(),
{
    if a.len() == 0 {
        assert(a + rest =~= rest);
        assert(a + insert_sorted(rest, k, v) =~= insert_sorted(rest, k, v));
    } else {
        assert((a + rest).drop_first() =~= a.drop_first() + rest);
        lemma_insert_sorted_prefix(a.drop_first(), rest, k, v);
        assert(seq![(a + rest)[0]] + (a.drop_first() + insert_sorted(rest, k, v)) =~= a
            + insert_sorted(rest, k, v));
    }
}

/// A suffix of entries with keys above `k` passes through `insert_sorted`.
pub proof fn lemma_insert_sorted_suffix<V>(c: Seq<(u64, V)>, b: Seq<(u64, V)>, k: u64, v: V)
    requires
        forall|i: int| 0 <= i < b.len() ==> b[i].0 > k,
    ensures
        insert_sorted(c + b, k, v) == insert_sorted(c, k, v) + b,
    decreases c.len(),
{
    if c.len() == 0 {
        assert(c + b =~= b);
        if b.len() == 0 {
            assert(insert_sorted(c, k, v) + b =~= insert_sorted(c, k, v));
        } else {
            assert(insert_sorted(b, k, v) == seq![(k, v)] + b);
            assert(seq![(k, v)] + b =~= insert_sorted(c, k, v) + b);
        }
    } else {
        assert((c + b)[0] == c[0]);
        if k < c[0].0 {
            assert(seq![(k, v)] + (c + b) =~= (seq![(k, v)] + c) + b);
        } else if k == c[0].0 {
            assert((c + b).update(0, (k, v)) =~= c.update(0, (k, v)) + b);
        } else {
            assert((c + b).drop_first() =~= c.drop_first() + b);
            lemma_insert_sorted_suffix(c.drop_first(), b, k, v);
            assert(seq![c[0]] + (insert_sorted(c.drop_first(), k, v) + b) =~= (seq![c[0]]
                + insert_sorted(c.drop_first(), k, v)) + b);
        }
    }
}

/// When every key before position `i` is below `k` and every key from `i` on
/// is above `k`, the sorted insertion is exactly an insertion at `i`.
pub proof fn lemma_insert_sorted_at<V>(s: Seq<(u64, V)>, i: int, k: u64, v: V)
    requires
        0 <= i <= s.len(),
        forall|j: int| 0 <= j < i ==> s[j].0 < k,
        forall|j: int| i <= j < s.len() ==> s[j].0 > k,
    ensures
        insert_sorted(s, k, v) == s.insert(i, (k, v)),
{
    let a = s.subrange(0, i);
    let b = s.subrange(i, s.len() as int);
    assert(s =~= a + b);
    lemma_insert_sorted_prefix(a, b, k, v);
    if b.len() == 0 {
        assert(a + insert_sorted(b, k, v) =~= s.insert(i, (k, v)));
    } else {
        assert(insert_sorted(b, k, v) == seq![(k, v)] + b);
        assert(a + (seq![(k, v)] + b) =~= s.insert(i, (k, v)));
    }
}

/// When position `i` already carries `k` and everything before it is below
/// `k`, the sorted insertion is exactly a replacement at `i`.
pub proof fn lemma_insert_sorted_replaces<V>(s: Seq<(u64, V)>, i: int, k: u64, v: V)
    requires
        0 <= i < s.len(),
        s[i].0 == k,
        forall|j: int| 0 <= j < i ==> s[j].0 < k,
    ensures
        insert_sorted(s, k, v) == s.update(i, (k, v)),
    decreases i,
{
    if i == 0 {
    } else {
        lemma_insert_sorted_replaces(s.drop_first(), i - 1, k, v);
        assert(seq![s[0]] + s.drop_first().update(i - 1, (k, v)) =~= s.update(i, (k, v)));
    }
}

/// A prefix of entries with keys other than `k` passes through `remove_key`.
pub proof fn lemma_remove_key_prefix<V>(a: Seq<(u64, V)>, rest: Seq<(u64, V)>, k: u64)
    requires
        forall|i: int| 0 <= i < a.len() ==> a[i].0 != k,
    ensures
        remove_key(a + rest, k) == a + remove_key(rest, k),
    decreases a.len(),
{
    if a.len() == 0 {
        assert(a + rest =~= rest);
        assert(a + remove_key(rest, k) =~= remove_key(rest, k));
    } else {
        assert((a + rest).drop_first() =~= a.drop_first() + rest);
        lemma_remove_key_prefix(a.drop_first(), rest, k);
        assert(seq![(a + rest)[0]] + (a.drop_first() + remove_key(rest, k)) =~= a + remove_key(
            rest,
            k,
        ));
    }
}

/// Removing a key that does not occur leaves the run unchanged.
pub proof fn lemma_remove_key_absent<V>(s: Seq<(u64, V)>, k: u64)
    requires
        forall|i: int| 0 <= i < s.len() ==> s[i].0 != k,
    ensures
        remove_key(s, k) == s,
    decreases s.len(),
{
    if s.len() > 0 {
        lemma_remove_key_absent(s.drop_first(), k);
        assert(seq![s[0]] + s.drop_first() =~= s);
    }
}

/// A suffix of entries with keys other than `k` passes through `remove_key`.
pub proof fn lemma_remove_key_suffix<V>(c: Seq<(u64, V)>, b: Seq<(u64, V)>, k: u64)
    requires
        forall|i: int| 0 <= i < b.len() ==> b[i].0 != k,
    ensures
        remove_key(c + b, k) == remove_key(c, k) + b,
    decreases c.len(),
{
    if c.len() == 0 {
        assert(c + b =~= b);
        lemma_remove_key_absent(b, k);
        assert(remove_key(c, k) + b =~= b);
    } else {
        assert((c + b)[0] == c[0]);
        if c[0].0 == k {
            assert((c + b).drop_first() =~= c.drop_first() + b);
        } else {
            assert((c + b).drop_first() =~= c.drop_first() + b);
            lemma_remove_key_suffix(c.drop_first(), b, k);
            assert(seq![c[0]] + (remove_key(c.drop_first(), k) + b) =~= (seq![c[0]] + remove_key(
                c.drop_first(),
                k,
            )) + b);
        }
    }
}

/// When position `i` carries `k` and everything before it does not,
/// `remove_key` is exactly a removal at `i`.
pub proof fn lemma_remove_key_at<V>(s: Seq<(u64, V)>, i: int, k: u64)
    requires
        0 <= i < s.len(),
        s[i].0 == k,
        forall|j: int| 0 <= j < i ==> s[j].0 != k,
    ensures
        remove_key(s, k) == s.remove(i),
    decreases i,
{
    if i == 0 {
        assert(s.drop_first() =~= s.remove(0));
    } else {
        lemma_remove_key_at(s.drop_first(), i - 1, k);
        assert(seq![s[0]] + s.drop_first().remove(i - 1) =~= s.remove(i));
    }
}

/// Sorted insertion keeps the run sorted, and moves the boundary keys only
/// when the new key lies outside them.
pub proof fn lemma_insert_sorted_sorted<V>(s: Seq<(u64, V)>, k: u64, v: V)
    requires
        strictly_sorted(s),
    ensures
        insert_sorted(s, k, v).len() >= 1,
        strictly_sorted(insert_sorted(s, k, v)),
        insert_sorted(s, k, v).first().0 == (if s.len() == 0 || k < s[0].0 {
            k
        } else {
            s[0].0
        }),
        insert_sorted(s, k, v).last().0 == (if s.len() == 0 || k > s.last().0 {
            k
        } else {
            s.last().0
        }),
    decreases s.len(),
{
    if s.len() == 0 {
    } else if k < s[0].0 {
        let t = seq![(k, v)] + s;
        assert(forall|j: int| 0 <= j < s.len() ==> t[j + 1] == s[j]);
        assert(t.last() == s.last());
    } else if k == s[0].0 {
        let t = s.update(0, (k, v));
        assert(forall|i: int, j: int| 0 <= i < j < t.len() ==> t[i].0 < t[j].0);
        assert(t.last() == (if s.len() == 1 {
            (k, v)
        } else {
            s.last()
        }));
    } else {
        lemma_insert_sorted_sorted(s.drop_first(), k, v);
        let r = insert_sorted(s.drop_first(), k, v);
        let t = seq![s[0]] + r;
        assert(forall|j: int| 0 <= j < r.len() ==> t[j + 1] == r[j]);
        assert(forall|j: int| 0 <= j < s.drop_first().len() ==> s.drop_first()[j] == s[j + 1]);
        assert(r.first().0 > s[0].0);
        assert forall|i: int, j: int| 0 <= i < j < t.len() implies t[i].0 < t[j].0 by {
            if i == 0 {
                if 1 <= j {
                    assert(t[j] == r[j - 1]);
                    if j - 1 > 0 {
                        assert(r.first().0 < r[j - 1].0);
                    }
                }
            }
        }
        assert(t.last() == r.last());
    }
}

/// Sorted insertion grows the run by one entry exactly when the key was
/// absent.
pub proof fn lemma_insert_sorted_len<V>(s: Seq<(u64, V)>, k: u64, v: V)
    requires
        strictly_sorted(s),
    ensures
        insert_sorted(s, k, v).len() == s.len() + (if has_key(s, k) {
            0int
        } else {
            1int
        }),
    decreases s.len(),
{
    if s.len() == 0 {
        assert(!has_key(s, k));
    } else if k < s[0].0 {
        assert(!has_key(s, k)) by {
            if has_key(s, k) {
                let i = choose|i: int| 0 <= i < s.len() && s[i].0 == k;
                assert(s[0].0 <= s[i].0);
            }
        }
    } else if k == s[0].0 {
        assert(has_key(s, k));
    } else {
        lemma_insert_sorted_len(s.drop_first(), k, v);
        assert(forall|j: int| 0 <= j < s.drop_first().len() ==> s.drop_first()[j] == s[j + 1]);
        if has_key(s, k) {
            let i = choose|i: int| 0 <= i < s.len() && s[i].0 == k;
            assert(s.drop_first()[i - 1].0 == k);
            assert(has_key(s.drop_first(), k));
        }
        if has_key(s.drop_first(), k) {
            let i = choose|i: int| 0 <= i < s.drop_first().len() && s.drop_first()[i].0 == k;
            assert(s[i + 1].0 == k);
        }
    }
}

/// Removing a key keeps the run sorted and cannot widen its boundary keys.
pub proof fn lemma_remove_key_sorted<V>(s: Seq<(u64, V)>, k: u64)
    requires
        strictly_sorted(s),
    ensures
        strictly_sorted(remove_key(s, k)),
        remove_key(s, k).len() == s.len() - (if has_key(s, k) {
            1int
        } else {
            0int
        }),
        remove_key(s, k).len() >= 1 ==> remove_key(s, k).first().0 >= s.first().0
            && remove_key(s, k).last().0 <= s.last().0,
    decreases s.len(),
{
    lemma_seq_get_some(s, k);
    if s.len() == 0 {
    } else if s[0].0 == k {
        assert(has_key(s, k));
        assert(forall|j: int| 0 <= j < s.drop_first().len() ==> s.drop_first()[j] == s[j + 1]);
    } else {
        lemma_remove_key_sorted(s.drop_first(), k);
        assert(forall|j: int| 0 <= j < s.drop_first().len() ==> s.drop_first()[j] == s[j + 1]);
        if has_key(s, k) {
            let i = choose|i: int| 0 <= i < s.len() && s[i].0 == k;
            assert(s.drop_first()[i - 1].0 == k);
            assert(has_key(s.drop_first(), k));
        }
        if has_key(s.drop_first(), k) {
            let i = choose|i: int| 0 <= i < s.drop_first().len() && s.drop_first()[i].0 == k;
            assert(s[i + 1].0 == k);
        }
        let r = remove_key(s.drop_first(), k);
        let t = seq![s[0]] + r;
        assert(forall|j: int| 0 <= j < r.len() ==> t[j + 1] == r[j]);
        assert forall|i: int, j: int| 0 <= i < j < t.len() implies t[i].0 < t[j].0 by {
            if i == 0 {
                assert(t[j] == r[j - 1]);
                if r.len() >= 1 && j >= 1 {
                    if j - 1 == 0 {
                        assert(r.first().0 >= s.drop_first().first().0);
                    } else {
                        assert(r.first().0 < r[j - 1].0);
                        assert(r.first().0 >= s.drop_first().first().0);
                    }
                }
            }
        }
        if t.len() >= 1 {
            assert(t.first() == s[0]);
            if r.len() >= 1 {
                assert(t.last() == r.last());
            } else {
                assert(t.last() == s[0]);
            }
        }
    }
}

/// What the run denotes as a map answers `seq_get`, key presence included.
pub proof fn lemma_as_map_get<V>(s: Seq<(u64, V)>, k: u64)
    requires
        strictly_sorted(s),
    ensures
        as_map(s).contains_key(k) <==> has_key(s, k),
        seq_get(s, k) == (if as_map(s).contains_key(k) {
            Some(as_map(s)[k])
        } else {
            None
        }),
    decreases s.len(),
{
    lemma_seq_get_some(s, k);
    if s.len() > 0 {
        lemma_as_map_get(s.drop_first(), k);
        if s[0].0 != k {
            if has_key(s, k) {
                let i = choose|i: int| 0 <= i < s.len() && s[i].0 == k;
                assert(s.drop_first()[i - 1].0 == k);
            }
            if has_key(s.drop_first(), k) {
                let i = choose|i: int|
                    0 <= i < s.drop_first().len() && s.drop_first()[i].0 == k;
                assert(s[i + 1].0 == k);
            }
        }
    }
}

/// Sorted insertion denotes map insertion.
pub proof fn lemma_as_map_insert<V>(s: Seq<(u64, V)>, k: u64, v: V)
    requires
        strictly_sorted(s),
    ensures
        as_map(insert_sorted(s, k, v)) == as_map(s).insert(k, v),
    decreases s.len(),
{
    if s.len() == 0 {
        let t = seq![(k, v)];
        assert(t.drop_first() =~= s);
        assert(as_map(t) == as_map(t.drop_first()).insert(t[0].0, t[0].1));
        assert(t[0] == (k, v));
    } else if k < s[0].0 {
        assert((seq![(k, v)] + s).drop_first() =~= s);
    } else if k == s[0].0 {
        assert(s.update(0, (k, v)).drop_first() =~= s.drop_first());
        assert(as_map(s.drop_first()).insert(k, v) =~= as_map(s.drop_first()).insert(
            s[0].0,
            s[0].1,
        ).insert(k, v));
    } else {
        lemma_as_map_insert(s.drop_first(), k, v);
        let t = seq![s[0]] + insert_sorted(s.drop_first(), k, v);
        assert(t.drop_first() =~= insert_sorted(s.drop_first(), k, v));
        assert(t[0] == s[0]);
        assert(as_map(s.drop_first()).insert(k, v).insert(s[0].0, s[0].1)
            =~= as_map(s.drop_first()).insert(s[0].0, s[0].1).insert(k, v));
    }
}

/// Removal of a key denotes map removal.
pub proof fn lemma_as_map_remove<V>(s: Seq<(u64, V)>, k: u64)
    requires
        strictly_sorted(s),
    ensures
        as_map(remove_key(s, k)) == as_map(s).remove(k),
    decreases s.len(),
{
    if s.len() == 0 {
        assert(as_map(remove_key(s, k)) =~= as_map(s).remove(k));
    } else if s[0].0 == k {
        lemma_as_map_get(s.drop_first(), k);
        assert(!has_key(s.drop_first(), k)) by {
            if has_key(s.drop_first(), k) {
                let i = choose|i: int|
                    0 <= i < s.drop_first().len() && s.drop_first()[i].0 == k;
                assert(s[i + 1].0 == k);
            }
        }
        assert(as_map(s.drop_first()) =~= as_map(s.drop_first()).insert(k, s[0].1).remove(k));
    } else {
        lemma_as_map_remove(s.drop_first(), k);
        let t = seq![s[0]] + remove_key(s.drop_first(), k);
        assert(t.drop_first() =~= remove_key(s.drop_first(), k));
        assert(t[0] == s[0]);
        assert(as_map(s.drop_first()).remove(k).insert(s[0].0, s[0].1)
            =~= as_map(s.drop_first()).insert(s[0].0, s[0].1).remove(k));
    }
}

/// A run without repeated keys denotes a map with one key per entry.
pub proof fn lemma_as_map_len<V>(s: Seq<(u64, V)>)
    requires
        strictly_sorted(s),
    ensures
        as_map(s).dom().finite(),
        as_map(s).dom().len() == s.len(),
    decreases s.len(),
{
    if s.len() > 0 {
        lemma_as_map_len(s.drop_first());
        lemma_as_map_get(s.drop_first(), s[0].0);
        assert(!has_key(s.drop_first(), s[0].0)) by {
            if has_key(s.drop_first(), s[0].0) {
                let i = choose|i: int|
                    0 <= i < s.drop_first().len() && s.drop_first()[i].0 == s[0].0;
                assert(s[i + 1].0 == s[0].0);
            }
        }
        assert(as_map(s).dom() =~= as_map(s.drop_first()).dom().insert(s[0].0));
        vstd::set::axiom_set_insert_finite(as_map(s.drop_first()).dom(), s[0].0);
        vstd::set::axiom_set_insert_len(as_map(s.drop_first()).dom(), s[0].0);
    }
}

} // verus!
