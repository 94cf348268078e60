//! Id-keyed columns.
//!
//! A [`HashStorage`] is one column of an archetype: a map from entity ids to
//! values of one field, which also fixes an enumeration order for its ids.
//! Ids are allocated from a counter and never reused, so every id handed out
//! stays distinct for the lifetime of the column.

use vstd::prelude::*;

use crate::value::Value;

verus! {

/// Identifier of an entity. Its model is the raw counter value.
#[derive(Debug, Clone, Copy, PartialEq, Eq, Hash, Structural)]
pub struct Id(u64);

impl View for Id {
    type V = u64;

    closed spec fn view(&self) -> u64 {
        self.0
    }
}

impl Id {
    /// The raw numeric identifier.
    pub fn raw(&self) -> (r: u64)
        ensures
            r == self@,
    {
        self.0
    }

    /// Rebuild an identifier from its raw number.
    pub fn from_raw(v: u64) -> (r: Id)
        ensures
            r@ == v,
    {
        Id(v)
    }
}

/// The keys of an association sequence, in storage order.
pub open spec fn keys_of<T>(s: Seq<(u64, T)>) -> Seq<u64> {
    s.map_values(|p: (u64, T)| p.0)
}

/// The value stored under a key, if any (later entries win; keys are unique
/// in a well-formed column, so the choice does not matter).
pub open spec fn lookup<T>(s: Seq<(u64, T)>, k: u64) -> Option<T>
    decreases s.len(),
{
    if s.len() == 0 {
        None
    } else if s.last().0 == k {
        Some(s.last().1)
    } else {
        lookup(s.drop_last(), k)
    }
}

/// The position of a key in a key sequence (meaningful when present).
pub open spec fn key_index(ks: Seq<u64>, k: u64) -> int
    decreases ks.len(),
{
    if ks.len() == 0 {
        -1
    } else if ks.last() == k {
        ks.len() - 1
    } else {
        key_index(ks.drop_last(), k)
    }
}

/// No two elements are equal.
pub open spec fn distinct(s: Seq<u64>) -> bool {
    forall|i: int, j: int| 0 <= i < j < s.len() ==> s[i] != s[j]
}

/// Strictly increasing left to right.
pub open spec fn increasing(s: Seq<u64>) -> bool {
    forall|i: int, j: int| 0 <= i < j < s.len() ==> s[i] < s[j]
}

/// Dropping the last entry drops the last key.
pub proof fn lemma_keys_drop_last<T>(s: Seq<(u64, T)>)
    requires
        s.len() > 0,
    ensures
        keys_of(s.drop_last()) == keys_of(s).drop_last(),
        distinct(keys_of(s)) ==> distinct(keys_of(s.drop_last())),
{
    assert(keys_of(s.drop_last()) =~= keys_of(s).drop_last());
    if distinct(keys_of(s)) {
        assert forall|i: int, j: int|
            0 <= i < j < keys_of(s.drop_last()).len() implies keys_of(s.drop_last())[i] != keys_of(
            s.drop_last(),
        )[j] by {
            assert(keys_of(s)[i] != keys_of(s)[j]);
        }
    }
}

/// A key is absent exactly when no entry carries it.
pub proof fn lemma_lookup_none<T>(s: Seq<(u64, T)>, k: u64)
    ensures
        lookup(s, k) is None <==> (forall|i: int| 0 <= i < s.len() ==> (#[trigger] s[i]).0 != k),
    decreases s.len(),
{
    if s.len() > 0 {
        let dl = s.drop_last();
        lemma_lookup_none(dl, k);
        assert(s.last() == s[s.len() - 1]);
        if lookup(s, k) is None {
            assert forall|i: int| 0 <= i < s.len() implies (#[trigger] s[i]).0 != k by {
                if i < s.len() - 1 {
                    assert(dl[i] == s[i]);
                    assert(dl[i].0 != k);
                }
            }
        }
        if forall|i: int| 0 <= i < s.len() ==> (#[trigger] s[i]).0 != k {
            assert forall|i: int| 0 <= i < dl.len() implies (#[trigger] dl[i]).0 != k by {
                assert(dl[i] == s[i]);
            }
            assert(lookup(dl, k) is None);
            assert(lookup(s, k) is None);
        }
    }
}

/// A key is found exactly when it occurs in the key sequence.
pub proof fn lemma_lookup_contains<T>(s: Seq<(u64, T)>, k: u64)
    ensures
        lookup(s, k) is Some <==> keys_of(s).contains(k),
{
    lemma_lookup_none(s, k);
    if keys_of(s).contains(k) {
        let i = choose|i: int| 0 <= i < keys_of(s).len() && keys_of(s)[i] == k;
        assert(s[i].0 == k);
    }
    if lookup(s, k) is Some {
        let i = choose|i: int| 0 <= i < s.len() && (#[trigger] s[i]).0 == k;
        assert(keys_of(s)[i] == k);
    }
}

/// Under distinct keys, lookup of the key at position `i` yields that entry.
pub proof fn lemma_lookup_at<T>(s: Seq<(u64, T)>, i: int)
    requires
        distinct(keys_of(s)),
        0 <= i < s.len(),
    ensures
        lookup(s, s[i].0) == Some(s[i].1),
        key_index(keys_of(s), s[i].0) == i,
    decreases s.len(),
{
    assert(keys_of(s)[s.len() - 1] == s.last().0);
    if i < s.len() - 1 {
        assert(keys_of(s)[i] == s[i].0);
        lemma_keys_drop_last(s);
        assert(s.drop_last()[i] == s[i]);
        lemma_lookup_at(s.drop_last(), i);
        assert(keys_of(s).last() != s[i].0);
        assert(keys_of(s).drop_last() == keys_of(s.drop_last()));
    }
}

/// Updating the value at position `i` changes lookup at that key alone.
pub proof fn lemma_lookup_set<T>(s: Seq<(u64, T)>, i: int, v: T)
    requires
        distinct(keys_of(s)),
        0 <= i < s.len(),
    ensures
        forall|k: u64|
            lookup(s.update(i, (s[i].0, v)), k) == if k == s[i].0 {
                Some(v)
            } else {
                lookup(s, k)
            },
        keys_of(s.update(i, (s[i].0, v))) == keys_of(s),
    decreases s.len(),
{
    let s2 = s.update(i, (s[i].0, v));
    assert(keys_of(s2) =~= keys_of(s));
    if i == s.len() - 1 {
        assert(s2.drop_last() =~= s.drop_last());
        assert forall|k: u64|
            lookup(s2, k) == (if k == s[i].0 {
                Some(v)
            } else {
                lookup(s, k)
            }) by {
            if k != s[i].0 {
                assert(s2.last().0 == s[i].0);
                assert(lookup(s2, k) == lookup(s2.drop_last(), k));
            }
        }
    } else {
        assert(keys_of(s)[i] == s[i].0);
        assert(keys_of(s)[s.len() - 1] == s.last().0);
        lemma_keys_drop_last(s);
        assert(s.drop_last()[i] == s[i]);
        lemma_lookup_set(s.drop_last(), i, v);
        assert(s2.drop_last() =~= s.drop_last().update(i, (s[i].0, v)));
        assert(s2.last() == s.last());
        assert forall|k: u64|
            lookup(s2, k) == (if k == s[i].0 {
                Some(v)
            } else {
                lookup(s, k)
            }) by {
            if s2.last().0 != k {
                assert(lookup(s2, k) == lookup(s2.drop_last(), k));
                assert(lookup(s, k) == lookup(s.drop_last(), k));
            }
        }
    }
}

/// Removing the entry at position `i` clears lookup at its key alone, and
/// removes exactly that key from the key order.
pub proof fn lemma_lookup_remove<T>(s: Seq<(u64, T)>, i: int)
    requires
        distinct(keys_of(s)),
        0 <= i < s.len(),
    ensures
        forall|k: u64|
            lookup(s.remove(i), k) == if k == s[i].0 {
                None
            } else {
                lookup(s, k)
            },
        keys_of(s.remove(i)) == keys_of(s).remove(i),
    decreases s.len(),
{
    let s2 = s.remove(i);
    assert(keys_of(s2) =~= keys_of(s).remove(i));
    if i == s.len() - 1 {
        assert(s2 =~= s.drop_last());
        assert forall|k: u64|
            lookup(s2, k) == (if k == s[i].0 {
                None
            } else {
                lookup(s, k)
            }) by {
            if k == s[i].0 {
                lemma_lookup_none(s.drop_last(), k);
                assert forall|j: int| 0 <= j < s.drop_last().len() implies (#[trigger] s.drop_last()[j]).0
                    != k by {
                    assert(keys_of(s)[j] == s[j].0);
                    assert(keys_of(s)[s.len() - 1] == k);
                }
            }
        }
    } else {
        assert(keys_of(s)[i] == s[i].0);
        assert(keys_of(s)[s.len() - 1] == s.last().0);
        lemma_keys_drop_last(s);
        assert(s.drop_last()[i] == s[i]);
        lemma_lookup_remove(s.drop_last(), i);
        assert(s2.drop_last() =~= s.drop_last().remove(i));
        assert(s2.last() == s.last());
        assert(s2.len() == s.len() - 1);
        assert forall|k: u64|
            lookup(s2, k) == (if k == s[i].0 {
                None
            } else {
                lookup(s, k)
            }) by {
            if s2.last().0 != k {
                assert(lookup(s2, k) == lookup(s2.drop_last(), k));
            }
        }
    }
}

/// The numeric models of a sequence of ids.
pub open spec fn id_views(ids: Seq<Id>) -> Seq<u64> {
    ids.map_values(|i: Id| i@)
}

/// A present key sits at its `key_index`.
pub proof fn lemma_key_index(ks: Seq<u64>, k: u64)
    requires
        ks.contains(k),
    ensures
        0 <= key_index(ks, k) < ks.len(),
        ks[key_index(ks, k)] == k,
    decreases ks.len(),
{
    if ks.last() != k {
        assert(ks.drop_last().contains(k)) by {
            let i = choose|i: int| 0 <= i < ks.len() && ks[i] == k;
            assert(ks.drop_last()[i] == k);
        }
        lemma_key_index(ks.drop_last(), k);
    }
}

/// Removing one key from a distinct key sequence removes that key alone.
pub proof fn lemma_remove_contains(ks: Seq<u64>, i: int)
    requires
        distinct(ks),
        0 <= i < ks.len(),
    ensures
        forall|k: u64| ks.remove(i).contains(k) <==> (ks.contains(k) && k != ks[i]),
        distinct(ks.remove(i)),
{
    let ks2 = ks.remove(i);
    assert forall|k: u64| ks2.contains(k) <==> (ks.contains(k) && k != ks[i]) by {
        if ks2.contains(k) {
            let a = choose|a: int| 0 <= a < ks2.len() && ks2[a] == k;
            if a < i {
                assert(ks[a] == k);
            } else {
                assert(ks[a + 1] == k);
            }
        }
        if ks.contains(k) && k != ks[i] {
            let a = choose|a: int| 0 <= a < ks.len() && ks[a] == k;
            if a < i {
                assert(ks2[a] == k);
            } else {
                assert(a != i);
                assert(ks2[a - 1] == k);
            }
        }
    }
}

/// A column of one field, keyed by entity id, with a counter for fresh ids.
pub struct HashStorage<T> {
    next_id: u64,
    entries: Vec<(u64, T)>,
}

impl<T> View for HashStorage<T> {
    type V = Seq<(u64, T)>;

    closed spec fn view(&self) -> Seq<(u64, T)> {
        self.entries@
    }
}

impl<T> HashStorage<T> {
    /// The next id this column would allocate.
    pub closed spec fn fresh(&self) -> u64 {
        self.next_id
    }

    /// The ids present, in enumeration order.
    pub open spec fn key_seq(&self) -> Seq<u64> {
        keys_of(self@)
    }

    /// Keys are strictly increasing (hence unique) and below the counter.
    pub open spec fn wf(&self) -> bool {
        &&& increasing(self.key_seq())
        &&& forall|i: int| 0 <= i < self.key_seq().len() ==> #[trigger] self.key_seq()[i]
            < self.fresh()
    }

    /// An empty column.
    pub fn new() -> (r: HashStorage<T>)
        ensures
            r@ == Seq::<(u64, T)>::empty(),
            r.fresh() == 0,
            r.wf(),
    {
        HashStorage { next_id: 0, entries: Vec::new() }
    }

    /// The number of live entries.
    pub fn len(&self) -> (r: usize)
        ensures
            r == self@.len(),
    {
        self.entries.len()
    }

    /// The ids of all live entries, in enumeration order.
    pub fn ids(&self) -> (r: Vec<Id>)
        ensures
            r@.len() == self.key_seq().len(),
            forall|i: int| 0 <= i < r@.len() ==> #[trigger] r@[i]@ == self.key_seq()[i],
    {
        let mut out: Vec<Id> = Vec::new();
        let mut i: usize = 0;
        while i < self.entries.len()
            invariant
                i <= self.entries.len(),
                out@.len() == i as int,
                forall|j: int| 0 <= j < i as int ==> #[trigger] out@[j]@ == keys_of(self@)[j],
            decreases self.entries.len() - i,
        {
            proof {
                assert(keys_of(self@)[i as int] == self@[i as int].0);
            }
            out.push(Id(self.entries[i].0));
            i = i + 1;
        }
        out
    }

    /// Insert a value under a fresh id and return that id.
    pub fn insert(&mut self, value: T) -> (r: Id)
        requires
            old(self).wf(),
            old(self).fresh() < u64::MAX,
        ensures
            final(self)@ == old(self)@.push((old(self).fresh(), value)),
            final(self).fresh() == old(self).fresh() + 1,
            final(self).wf(),
            r@ == old(self).fresh(),
            lookup(final(self)@, r@) == Some(value),
            final(self).key_seq() == old(self).key_seq().push(r@),
            forall|k: u64| k != r@ ==> lookup(final(self)@, k) == lookup(old(self)@, k),
    {
        let id = self.next_id;
        self.next_id = self.next_id + 1;
        self.entries.push((id, value));
        proof {
            assert(self.key_seq() =~= old(self).key_seq().push(id));
            assert(self@.drop_last() =~= old(self)@);
        }
        Id(id)
    }

    /// Read the value under an id, if present.
    pub fn get(&self, id: Id) -> (r: Option<&T>)
        requires
            self.wf(),
        ensures
            match r {
                Some(v) => lookup(self@, id@) == Some(*v),
                None => lookup(self@, id@) is None,
            },
    {
        let mut i: usize = 0;
        while i < self.entries.len()
            invariant
                self.wf(),
                i <= self.entries.len(),
                forall|j: int| 0 <= j < i as int ==> (#[trigger] self@[j]).0 != id@,
            decreases self.entries.len() - i,
        {
            if self.entries[i].0 == id.0 {
                proof {
                    lemma_lookup_at(self@, i as int);
                }
                return Some(&self.entries[i].1);
            }
            i = i + 1;
        }
        proof {
            lemma_lookup_none(self@, id@);
        }
        None
    }

    /// Replace the value under an id; the old value comes back.
    pub fn update(&mut self, id: Id, value: T) -> (r: Option<T>)
        requires
            old(self).wf(),
            lookup(old(self)@, id@) is Some,
        ensures
            final(self).wf(),
            final(self).fresh() == old(self).fresh(),
            final(self).key_seq() == old(self).key_seq(),
            lookup(final(self)@, id@) == Some(value),
            r == lookup(old(self)@, id@),
            forall|k: u64| k != id@ ==> lookup(final(self)@, k) == lookup(old(self)@, k),
    {
        let n = self.entries.len();
        let mut i: usize = 0;
        while i < n
            invariant
                self == old(self),
                n == self@.len(),
                old(self).wf(),
                lookup(old(self)@, id@) is Some,
                i <= n,
                forall|j: int| 0 <= j < i as int ==> (#[trigger] self@[j]).0 != id@,
            decreases n - i,
        {
            if self.entries[i].0 == id.0 {
                proof {
                    lemma_lookup_at(self@, i as int);
                    lemma_lookup_set(self@, i as int, value);
                }
                let ghost prev = self@;
                let entry = self.entries.remove(i);
                self.entries.insert(i, (entry.0, value));
                proof {
                    assert(self@ =~= prev.update(i as int, (prev[i as int].0, value)));
                }
                return Some(entry.1);
            }
            i = i + 1;
        }
        proof {
            lemma_lookup_none(self@, id@);
        }
        unreached()
    }

    /// Remove the value under an id, if present.
    pub fn remove(&mut self, id: Id) -> (r: Option<T>)
        requires
            old(self).wf(),
        ensures
            final(self).wf(),
            final(self).fresh() == old(self).fresh(),
            lookup(final(self)@, id@) is None,
            r == lookup(old(self)@, id@),
            forall|k: u64| k != id@ ==> lookup(final(self)@, k) == lookup(old(self)@, k),
            match lookup(old(self)@, id@) {
                Some(_) => final(self).key_seq() == old(self).key_seq().remove(
                    key_index(old(self).key_seq(), id@),
                ),
                None => *final(self) == *old(self),
            },
    {
        let n = self.entries.len();
        let mut i: usize = 0;
        while i < n
            invariant
                self == old(self),
                n == self@.len(),
                old(self).wf(),
                i <= n,
                forall|j: int| 0 <= j < i as int ==> (#[trigger] self@[j]).0 != id@,
            decreases n - i,
        {
            if self.entries[i].0 == id.0 {
                proof {
                    lemma_lookup_at(self@, i as int);
                    lemma_lookup_remove(self@, i as int);
                }
                let (_, v) = self.entries.remove(i);
                return Some(v);
            }
            i = i + 1;
        }
        proof {
            lemma_lookup_none(self@, id@);
        }
        None
    }
}

impl HashStorage<Value> {
    /// Parallel fetch of many entries at once, the read half of the parallel
    /// mutable fetch: the caller guarantees the ids are pairwise distinct and
    /// all live, and gets one value per id, positionally aligned.
    pub fn fetch_many(&self, ids: &Vec<Id>) -> (r: Vec<Value>)
        requires
            self.wf(),
            distinct(id_views(ids@)),
            forall|k: int| 0 <= k < ids@.len() ==> lookup(self@, #[trigger] ids@[k]@) is Some,
        ensures
            r@.len() == ids@.len(),
            forall|k: int|
                0 <= k < ids@.len() ==> (lookup(self@, #[trigger] ids@[k]@) matches Some(v)
                    && r@[k]@ == v@),
    {
        let mut out: Vec<Value> = Vec::new();
        let mut k: usize = 0;
        while k < ids.len()
            invariant
                self.wf(),
                forall|j: int| 0 <= j < ids@.len() ==> lookup(self@, #[trigger] ids@[j]@) is Some,
                k <= ids@.len(),
                out@.len() == k as int,
                forall|j: int|
                    0 <= j < k as int ==> (lookup(self@, #[trigger] ids@[j]@) matches Some(v)
                        && out@[j]@ == v@),
            decreases ids@.len() - k,
        {
            match self.get(ids[k]) {
                Some(v) => {
                    out.push(v.duplicate());
                }
                None => {
                    proof {
                        assert(lookup(self@, ids@[k as int]@) is Some);
                    }
                    unreached::<()>();
                }
            }
            k = k + 1;
        }
        out
    }

    /// The write half of the parallel mutable fetch: store one value per id,
    /// positionally aligned with the (distinct, live) id sequence.
    pub fn store_many(&mut self, ids: &Vec<Id>, vals: Vec<Value>)
        requires
            old(self).wf(),
            ids@.len() == vals@.len(),
            distinct(id_views(ids@)),
            forall|k: int| 0 <= k < ids@.len() ==> lookup(old(self)@, #[trigger] ids@[k]@) is Some,
        ensures
            final(self).wf(),
            final(self).fresh() == old(self).fresh(),
            final(self).key_seq() == old(self).key_seq(),
            forall|k: int|
                0 <= k < ids@.len() ==> lookup(final(self)@, #[trigger] ids@[k]@) == Some(
                    vals@[k],
                ),
            forall|u: u64|
                !id_views(ids@).contains(u) ==> lookup(final(self)@, u) == lookup(old(self)@, u),
    {
        let ghost all_vals = vals@;
        let mut vals = vals;
        let mut k: usize = 0;
        while k < ids.len()
            invariant
                self.wf(),
                self.fresh() == old(self).fresh(),
                self.key_seq() == old(self).key_seq(),
                ids@.len() == all_vals.len(),
                distinct(id_views(ids@)),
                k <= ids@.len(),
                vals@ == all_vals.skip(k as int),
                forall|j: int|
                    k as int <= j < ids@.len() ==> lookup(self@, #[trigger] ids@[j]@) is Some,
                forall|j: int|
                    0 <= j < k as int ==> lookup(self@, #[trigger] ids@[j]@) == Some(all_vals[j]),
                forall|u: u64|
                    !id_views(ids@.take(k as int)).contains(u) ==> lookup(self@, u) == lookup(
                        old(self)@,
                        u,
                    ),
            decreases ids@.len() - k,
        {
            let v = vals.remove(0);
            proof {
                assert(v == all_vals[k as int]);
                assert(vals@ =~= all_vals.skip(k as int + 1));
            }
            let ghost pre = self@;
            self.update(ids[k], v);
            proof {
                assert forall|j: int|
                    0 <= j < k as int + 1 implies lookup(self@, #[trigger] ids@[j]@) == Some(
                    all_vals[j],
                ) by {
                    if j < k as int {
                        assert(id_views(ids@)[j] != id_views(ids@)[k as int]);
                    }
                }
                assert forall|u: u64|
                    !id_views(ids@.take(k as int + 1)).contains(u) implies lookup(self@, u)
                    == lookup(old(self)@, u) by {
                    let tk = id_views(ids@.take(k as int));
                    let tk1 = id_views(ids@.take(k as int + 1));
                    assert(tk1 =~= tk.push(ids@[k as int]@));
                    if u == ids@[k as int]@ {
                        assert(tk1[tk1.len() - 1] == u);
                        assert(tk1.contains(u));
                    }
                    if tk.contains(u) {
                        let i = choose|i: int| 0 <= i < tk.len() && tk[i] == u;
                        assert(tk1[i] == u);
                        assert(tk1.contains(u));
                    }
                    assert(!tk.contains(u));
                    assert(u != ids@[k as int]@);
                }
                assert forall|j: int|
                    k as int + 1 <= j < ids@.len() implies lookup(self@, #[trigger] ids@[j]@)
                    is Some by {
                    assert(id_views(ids@)[j] != id_views(ids@)[k as int]);
                }
            }
            k = k + 1;
        }
        proof {
            assert(ids@.take(ids@.len() as int) =~= ids@);
        }
    }
}

/// Aliasing non-interference: a parallel store through one id set leaves
/// every value under a disjoint id set exactly as it was.
pub proof fn lemma_aliasing_non_interference(
    pre: Seq<(u64, Value)>,
    post: Seq<(u64, Value)>,
    written: Seq<u64>,
    others: Seq<u64>,
)
    requires
        forall|u: u64| !written.contains(u) ==> lookup(post, u) == lookup(pre, u),
        forall|k: int| 0 <= k < others.len() ==> !written.contains(#[trigger] others[k]),
    ensures
        forall|k: int|
            0 <= k < others.len() ==> lookup(post, #[trigger] others[k]) == lookup(
                pre,
                others[k],
            ),
{
}

} // verus!
