//! The storage abstraction: id-keyed columns of component values.
//!
//! Every storage promises the same things of its ids: each enumeration
//! yields only currently valid ids, each exactly once, and an id handed
//! out by insert is fresh. The columns differ in how they keep the values
//! — an ordered id-counter column, an arena, or a plain vector with
//! tombstones — and each is one family.

use vstd::prelude::*;

use crate::arena::ArenaFamily;
use crate::arena::ArenaStorage;
use crate::hashstorage::HashStorage;
use crate::hashstorage::Id;
use crate::hashstorage::distinct;
use crate::hashstorage::keys_of;
use crate::hashstorage::lemma_lookup_contains;
use crate::hashstorage::lookup;
use crate::value::Value;

verus! {

/// A storage of components: an id-keyed column.
///
/// Every id its enumeration yields is currently valid and appears exactly
/// once, and ids are never reused while their entry is live.
pub trait Storage: Sized {
    /// The stored values by id.
    spec fn contents(&self) -> Map<u64, Value>;

    /// The storage's internal invariant.
    spec fn valid(&self) -> bool;

    /// Whether one more value fits.
    spec fn room(&self) -> bool;

    /// The unique, currently valid ids, in this storage's own order.
    fn ids(&self) -> (r: Vec<u64>)
        requires
            self.valid(),
        ensures
            distinct(r@),
            forall|i: int| 0 <= i < r@.len() ==> self.contents().contains_key(#[trigger] r@[i]),
            forall|k: u64| self.contents().contains_key(k) ==> r@.contains(k),
    ;

    /// Insert a value under a fresh id and return that id.
    fn insert(&mut self, value: Value) -> (r: u64)
        requires
            old(self).valid(),
            old(self).room(),
        ensures
            final(self).valid(),
            !old(self).contents().contains_key(r),
            final(self).contents() == old(self).contents().insert(r, value),
    ;

    /// Read the value under an id, if it is valid.
    fn get(&self, id: u64) -> (r: Option<&Value>)
        requires
            self.valid(),
        ensures
            match r {
                Some(v) => self.contents().contains_key(id) && *v == self.contents()[id],
                None => !self.contents().contains_key(id),
            },
    ;

    /// Replace the value under an id; says whether the id was valid.
    fn set(&mut self, id: u64, value: Value) -> (r: bool)
        requires
            old(self).valid(),
        ensures
            final(self).valid(),
            r == old(self).contents().contains_key(id),
            r ==> final(self).contents() == old(self).contents().insert(id, value),
            !r ==> final(self).contents() == old(self).contents(),
    ;

    /// Remove the value under an id, if it is valid.
    fn remove(&mut self, id: u64) -> (r: Option<Value>)
        requires
            old(self).valid(),
        ensures
            final(self).valid(),
            final(self).contents() == old(self).contents().remove(id),
            match r {
                Some(v) => old(self).contents().contains_key(id) && v == old(self).contents()[id],
                None => !old(self).contents().contains_key(id),
            },
    ;
}

/// A family of storages sharing one id discipline.
pub trait StorageFamily {
    /// The family's storage of dynamic component values.
    type Storage: Storage;
}

/// Family of the id-counter columns.
pub struct HashFamily;

impl StorageFamily for HashFamily {
    type Storage = HashStorage<Value>;
}

impl StorageFamily for ArenaFamily {
    type Storage = ArenaStorage;
}

/// Family of the tombstone vectors.
pub struct VecFamily;

impl StorageFamily for VecFamily {
    type Storage = VecStorage;
}

impl Storage for HashStorage<Value> {
    open spec fn contents(&self) -> Map<u64, Value> {
        Map::new(|k: u64| lookup(self@, k) is Some, |k: u64| lookup(self@, k).unwrap())
    }

    open spec fn valid(&self) -> bool {
        self.wf()
    }

    open spec fn room(&self) -> bool {
        self.fresh() < u64::MAX
    }

    fn ids(&self) -> (r: Vec<u64>)
    {
        let keyed = HashStorage::<Value>::ids(self);
        let mut out: Vec<u64> = Vec::new();
        let mut i: usize = 0;
        while i < keyed.len()
            invariant
                self.wf(),
                keyed@.len() == self.key_seq().len(),
                forall|j: int| 0 <= j < keyed@.len() ==> #[trigger] keyed@[j]@ == self.key_seq()[j],
                i <= keyed@.len(),
                out@.len() == i as int,
                forall|j: int| 0 <= j < i as int ==> #[trigger] out@[j] == self.key_seq()[j],
            decreases keyed@.len() - i,
        {
            out.push(keyed[i].raw());
            i = i + 1;
        }
        proof {
            assert(out@ =~= self.key_seq());
            assert forall|i2: int|
                0 <= i2 < out@.len() implies Storage::contents(self).contains_key(
                #[trigger] out@[i2],
            ) by {
                crate::hashstorage::lemma_lookup_at(self@, i2);
                assert(keys_of(self@)[i2] == self@[i2].0);
            }
            assert forall|k: u64|
                Storage::contents(self).contains_key(k) implies out@.contains(k) by {
                lemma_lookup_contains(self@, k);
                let i2 = choose|i2: int|
                    0 <= i2 < keys_of(self@).len() && keys_of(self@)[i2] == k;
                assert(out@[i2] == k);
            }
        }
        out
    }

    fn insert(&mut self, value: Value) -> (r: u64)
    {
        let ghost pre = *self;
        let id = HashStorage::<Value>::insert(self, value);
        proof {
            lemma_lookup_contains(pre@, id@);
            crate::hashstorage::lemma_lookup_none(pre@, id@);
            assert forall|i: int| 0 <= i < pre@.len() implies (#[trigger] pre@[i]).0 != id@ by {
                assert(keys_of(pre@)[i] == pre@[i].0);
                assert(keys_of(pre@)[i] < pre.fresh());
            }
            assert(Storage::contents(self) =~= Storage::contents(&pre).insert(id@, value));
        }
        id.raw()
    }

    fn get(&self, id: u64) -> (r: Option<&Value>)
    {
        proof {
            lemma_lookup_contains(self@, id);
        }
        HashStorage::<Value>::get(self, Id::from_raw(id))
    }

    fn set(&mut self, id: u64, value: Value) -> (r: bool)
    {
        let ghost pre = *self;
        proof {
            lemma_lookup_contains(self@, id);
        }
        match HashStorage::<Value>::get(self, Id::from_raw(id)) {
            None => false,
            Some(_) => {
                HashStorage::<Value>::update(self, Id::from_raw(id), value);
                proof {
                    assert(Storage::contents(self) =~= Storage::contents(&pre).insert(id, value));
                }
                true
            }
        }
    }

    fn remove(&mut self, id: u64) -> (r: Option<Value>)
    {
        let ghost pre = *self;
        proof {
            lemma_lookup_contains(pre@, id);
        }
        let r = HashStorage::<Value>::remove(self, Id::from_raw(id));
        proof {
            assert(Storage::contents(self) =~= Storage::contents(&pre).remove(id));
        }
        r
    }
}

impl Storage for ArenaStorage {
    open spec fn contents(&self) -> Map<u64, Value> {
        ArenaStorage::contents(self)
    }

    open spec fn valid(&self) -> bool {
        self.inv()
    }

    open spec fn room(&self) -> bool {
        self.contents().dom().len() < 0xffff_fffe
    }

    fn ids(&self) -> (r: Vec<u64>)
    {
        ArenaStorage::ids(self)
    }

    fn insert(&mut self, value: Value) -> (r: u64)
    {
        ArenaStorage::insert(self, value)
    }

    fn get(&self, id: u64) -> (r: Option<&Value>)
    {
        ArenaStorage::get(self, id)
    }

    fn set(&mut self, id: u64, value: Value) -> (r: bool)
    {
        ArenaStorage::get_mut(self, id, value)
    }

    fn remove(&mut self, id: u64) -> (r: Option<Value>)
    {
        let ghost pre = *self;
        let r = ArenaStorage::remove(self, id);
        proof {
            if r is None {
                assert(Storage::contents(self) =~= Storage::contents(&pre).remove(id));
            }
        }
        r
    }
}

/// A column kept in a plain vector: the id is the position, a removed
/// entry leaves a tombstone so that ids are never reused.
pub struct VecStorage {
    cells: Vec<Option<Value>>,
}

impl VecStorage {
    /// An empty vector column.
    pub fn new() -> (r: VecStorage)
        ensures
            Storage::contents(&r) =~= Map::<u64, Value>::empty(),
            r.valid(),
    {
        let r = VecStorage { cells: Vec::new() };
        proof {
            assert(Storage::contents(&r) =~= Map::<u64, Value>::empty());
        }
        r
    }
}

impl Storage for VecStorage {
    closed spec fn contents(&self) -> Map<u64, Value> {
        Map::new(
            |k: u64| k < self.cells@.len() && self.cells@[k as int] is Some,
            |k: u64| self.cells@[k as int].unwrap(),
        )
    }

    closed spec fn valid(&self) -> bool {
        true
    }

    closed spec fn room(&self) -> bool {
        self.cells@.len() < u64::MAX
    }

    fn ids(&self) -> (r: Vec<u64>)
    {
        let n = self.cells.len();
        let mut out: Vec<u64> = Vec::new();
        let mut i: usize = 0;
        while i < n
            invariant
                n == self.cells@.len(),
                i <= n,
                forall|j: int|
                    0 <= j < out@.len() ==> #[trigger] out@[j] < i as u64 && self.cells@[out@[j] as int] is Some,
                forall|a: int, b: int| 0 <= a < b < out@.len() ==> out@[a] < out@[b],
                forall|k: u64|
                    k < i as u64 && self.cells@[k as int] is Some ==> out@.contains(k),
            decreases self.cells@.len() - i,
        {
            match &self.cells[i] {
                Some(_) => {
                    let ghost pre = out@;
                    out.push(i as u64);
                    proof {
                        assert forall|k: u64|
                            k < i as u64 + 1 && self.cells@[k as int] is Some implies out@.contains(
                            k,
                        ) by {
                            if k < i as u64 {
                                assert(pre.contains(k));
                                let a = choose|a: int| 0 <= a < pre.len() && pre[a] == k;
                                assert(out@[a] == pre[a]);
                                assert(out@[a] == k);
                            } else {
                                assert(out@[out@.len() - 1] == k);
                            }
                        }
                    }
                }
                None => {
                    proof {
                        assert forall|k: u64|
                            k < i as u64 + 1 && self.cells@[k as int] is Some implies out@.contains(
                            k,
                        ) by {
                            assert(k != i as u64);
                        }
                    }
                }
            }
            i = i + 1;
        }
        out
    }

    fn insert(&mut self, value: Value) -> (r: u64)
    {
        let id = self.cells.len() as u64;
        self.cells.push(Some(value));
        proof {
            assert(Storage::contents(self) =~= Storage::contents(old(self)).insert(id, value));
        }
        id
    }

    fn get(&self, id: u64) -> (r: Option<&Value>)
    {
        if id < self.cells.len() as u64 {
            match &self.cells[id as usize] {
                Some(v) => Some(v),
                None => None,
            }
        } else {
            None
        }
    }

    fn set(&mut self, id: u64, value: Value) -> (r: bool)
    {
        if id < self.cells.len() as u64 {
            let live = self.cells[id as usize].is_some();
            if live {
                let slot = crate::archetype::vec_index_mut(&mut self.cells, id as usize);
                *slot = Some(value);
                proof {
                    assert(Storage::contents(self) =~= Storage::contents(old(self)).insert(
                        id,
                        value,
                    ));
                }
                return true;
            }
            proof {
                assert(Storage::contents(self) =~= Storage::contents(old(self)));
            }
            false
        } else {
            proof {
                assert(Storage::contents(self) =~= Storage::contents(old(self)));
            }
            false
        }
    }

    fn remove(&mut self, id: u64) -> (r: Option<Value>)
    {
        if id < self.cells.len() as u64 {
            let slot = crate::archetype::vec_index_mut(&mut self.cells, id as usize);
            let taken = slot.take();
            proof {
                assert(Storage::contents(self) =~= Storage::contents(old(self)).remove(id));
            }
            taken
        } else {
            proof {
                assert(Storage::contents(self) =~= Storage::contents(old(self)).remove(id));
            }
            None
        }
    }
}

} // verus!
