//! Arena-backed storage: a column kept in an outside slot map.
//!
//! The slot map owns the slots and hands out versioned keys; this module
//! carries each key as its raw `u64` form and states the collection's
//! behaviour over two named views: its contents and its enumeration order.

use vstd::prelude::*;

use crate::value::Value;

verus! {

/// The slot map that holds one column's values, opaque to verification:
/// its behaviour is stated over the named views below, against the slot
/// map's own source.
#[verifier::external_body]
pub struct ArenaMap {
    inner: slotmap::SlotMap<slotmap::DefaultKey, Value>,
}

/// What the slot map holds, keyed by the raw form of its keys.
pub uninterp spec fn sm_contents(m: ArenaMap) -> Map<u64, Value>;

/// Whether a raw key has the form the slot map itself hands out: the
/// version half of an occupied slot's key is always odd. `KeyData::from_ffi`
/// forces the version half odd when a raw key is read back, so a raw key
/// with an even version half would alias the live key of the same slot;
/// the id-keyed wrappers below therefore accept only this form.
pub open spec fn live_key_form(k: u64) -> bool {
    (k >> 32) & 1 == 1
}

/// The order in which the slot map enumerates its keys, in raw form.
pub uninterp spec fn sm_order(m: ArenaMap) -> Seq<u64>;

/// A column held in a slot map.
type Column = ArenaMap;

/// The contents of a column with nothing in it.
pub open spec fn no_contents() -> Map<u64, Value> {
    Map::empty()
}

/// Relies on SlotMap::new: a fresh slot map is empty.
#[verifier::external_body]
fn sm_new() -> (r: Column)
    ensures
        sm_contents(r) == no_contents(),
{
    ArenaMap { inner: slotmap::SlotMap::new() }
}

/// Relies on SlotMap::len: the number of stored values.
#[verifier::external_body]
fn sm_len(m: &Column) -> (r: usize)
    ensures
        r == sm_contents(*m).dom().len(),
{
    m.inner.len()
}

/// Relies on SlotMap::insert: the value is stored under a key not present
/// before — an occupied slot's key, so its raw form has an odd version
/// half — and nothing else moves. The slot map panics only when it is
/// full, which the length bound rules out.
#[verifier::external_body]
fn sm_insert(m: &mut Column, value: Value) -> (r: u64)
    requires
        sm_contents(*old(m)).dom().finite(),
        sm_contents(*old(m)).dom().len() < 0xffff_fffe,
    ensures
        !sm_contents(*old(m)).dom().contains(r),
        sm_contents(*final(m)) == sm_contents(*old(m)).insert(r, value),
        sm_contents(*final(m)).dom().finite(),
        live_key_form(r),
{
    let key = m.inner.insert(value);
    slotmap::Key::data(&key).as_ffi()
}

/// Relies on SlotMap::get and KeyData::from_ffi: on a raw key whose
/// version half is odd, `from_ffi` inverts `as_ffi` exactly, and `get`
/// yields the value stored under that key, nothing for any other key.
#[verifier::external_body]
fn sm_get(m: &Column, id: u64) -> (r: Option<&Value>)
    requires
        live_key_form(id),
    ensures
        match r {
            Some(v) => sm_contents(*m).contains_key(id) && *v == sm_contents(*m)[id],
            None => !sm_contents(*m).contains_key(id),
        },
{
    let key: slotmap::DefaultKey = slotmap::KeyData::from_ffi(id).into();
    m.inner.get(key)
}

/// Relies on SlotMap::get_mut and KeyData::from_ffi: on a raw key whose
/// version half is odd, writing through `get_mut` replaces the value under
/// exactly that key and touches nothing else.
#[verifier::external_body]
fn sm_set(m: &mut Column, id: u64, value: Value) -> (r: bool)
    requires
        live_key_form(id),
    ensures
        r == sm_contents(*old(m)).contains_key(id),
        r ==> sm_contents(*final(m)) == sm_contents(*old(m)).insert(id, value),
        !r ==> *final(m) == *old(m),
{
    let key: slotmap::DefaultKey = slotmap::KeyData::from_ffi(id).into();
    match m.inner.get_mut(key) {
        Some(slot) => {
            *slot = value;
            true
        }
        None => false,
    }
}

/// Relies on SlotMap::remove and KeyData::from_ffi: on a raw key whose
/// version half is odd, the value under exactly that key comes out and the
/// key stops being live; a key not held leaves the map untouched.
#[verifier::external_body]
fn sm_remove(m: &mut Column, id: u64) -> (r: Option<Value>)
    requires
        live_key_form(id),
    ensures
        match r {
            Some(v) => sm_contents(*old(m)).contains_key(id) && v == sm_contents(*old(m))[id]
                && sm_contents(*final(m)) == sm_contents(*old(m)).remove(id),
            None => !sm_contents(*old(m)).contains_key(id) && *final(m) == *old(m),
        },
{
    let key: slotmap::DefaultKey = slotmap::KeyData::from_ffi(id).into();
    m.inner.remove(key)
}

/// Relies on SlotMap::keys: every live key exactly once, in the map's own
/// enumeration order, each in the odd-version raw form of an occupied slot.
#[verifier::external_body]
fn sm_keys(m: &Column) -> (r: Vec<u64>)
    ensures
        r@ == sm_order(*m),
        crate::hashstorage::distinct(r@),
        forall|i: int| 0 <= i < r@.len() ==> sm_contents(*m).contains_key(#[trigger] r@[i]),
        forall|k: u64| sm_contents(*m).contains_key(k) ==> r@.contains(k),
        forall|i: int| 0 <= i < r@.len() ==> live_key_form(#[trigger] r@[i]),
{
    m.inner.keys().map(|k| slotmap::Key::data(&k).as_ffi()).collect()
}

/// A column of values kept in an arena (a slot map): ids are versioned
/// keys in raw form; an id stays valid until removed, and an insert never
/// hands out an id that is currently live.
pub struct ArenaStorage {
    inner: ArenaMap,
}

/// Family marker for arena-backed columns.
pub struct ArenaFamily;

impl ArenaStorage {
    /// The stored values, keyed by raw key.
    pub closed spec fn contents(&self) -> Map<u64, Value> {
        sm_contents(self.inner)
    }

    /// The arena holds finitely many values, every one of them under an
    /// id in the slot map's own odd-version raw form.
    pub open spec fn inv(&self) -> bool {
        &&& self.contents().dom().finite()
        &&& forall|k: u64| self.contents().contains_key(k) ==> live_key_form(k)
    }

    /// An empty arena column.
    pub fn new() -> (r: ArenaStorage)
        ensures
            r.contents() == Map::<u64, Value>::empty(),
            r.inv(),
    {
        let r = ArenaStorage { inner: sm_new() };
        proof {
            assert(r.contents().dom() =~= Set::<u64>::empty());
        }
        r
    }

    /// The number of stored values.
    pub fn len(&self) -> (r: usize)
        ensures
            r == self.contents().dom().len(),
    {
        sm_len(&self.inner)
    }

    /// Store a value under a fresh id and return that id.
    pub fn insert(&mut self, value: Value) -> (r: u64)
        requires
            old(self).inv(),
            old(self).contents().dom().len() < 0xffff_fffe,
        ensures
            !old(self).contents().dom().contains(r),
            final(self).contents() == old(self).contents().insert(r, value),
            final(self).inv(),
    {
        let id = sm_insert(&mut self.inner, value);
        proof {
            assert forall|k: u64| self.contents().contains_key(k) implies live_key_form(k) by {
                if k != id {
                    assert(old(self).contents().contains_key(k));
                }
            }
        }
        id
    }

    /// Read the value under an id, if it is live. An id outside the slot
    /// map's own raw key form is live under no circumstances.
    pub fn get(&self, id: u64) -> (r: Option<&Value>)
        requires
            self.inv(),
        ensures
            match r {
                Some(v) => self.contents().contains_key(id) && *v == self.contents()[id],
                None => !self.contents().contains_key(id),
            },
    {
        if (id >> 32) & 1 == 1 {
            sm_get(&self.inner, id)
        } else {
            proof {
                assert(!self.contents().contains_key(id)) by {
                    if self.contents().contains_key(id) {
                        assert(live_key_form(id));
                    }
                }
            }
            None
        }
    }

    /// Replace the value under a live id; says whether the id was live.
    pub fn get_mut(&mut self, id: u64, value: Value) -> (r: bool)
        requires
            old(self).inv(),
        ensures
            final(self).inv(),
            r == old(self).contents().contains_key(id),
            r ==> final(self).contents() == old(self).contents().insert(id, value),
            !r ==> final(self).contents() == old(self).contents(),
    {
        if (id >> 32) & 1 == 1 {
            let r = sm_set(&mut self.inner, id, value);
            proof {
                if r {
                    assert forall|k: u64|
                        self.contents().contains_key(k) implies live_key_form(k) by {
                        if k != id {
                            assert(old(self).contents().contains_key(k));
                        }
                    }
                }
            }
            r
        } else {
            proof {
                assert(!self.contents().contains_key(id)) by {
                    if self.contents().contains_key(id) {
                        assert(live_key_form(id));
                    }
                }
            }
            false
        }
    }

    /// Remove the value under an id, if it is live.
    pub fn remove(&mut self, id: u64) -> (r: Option<Value>)
        requires
            old(self).inv(),
        ensures
            final(self).inv(),
            match r {
                Some(v) => old(self).contents().contains_key(id) && v == old(self).contents()[id]
                    && final(self).contents() == old(self).contents().remove(id),
                None => !old(self).contents().contains_key(id) && final(self).contents() == old(
                    self,
                ).contents(),
            },
    {
        if (id >> 32) & 1 == 1 {
            let r = sm_remove(&mut self.inner, id);
            proof {
                assert forall|k: u64| self.contents().contains_key(k) implies live_key_form(k) by {
                    assert(old(self).contents().contains_key(k));
                }
            }
            r
        } else {
            proof {
                assert(!self.contents().contains_key(id)) by {
                    if self.contents().contains_key(id) {
                        assert(live_key_form(id));
                    }
                }
            }
            None
        }
    }

    /// The live ids, each exactly once, in the arena's enumeration order.
    pub fn ids(&self) -> (r: Vec<u64>)
        ensures
            crate::hashstorage::distinct(r@),
            forall|i: int| 0 <= i < r@.len() ==> self.contents().contains_key(#[trigger] r@[i]),
            forall|k: u64| self.contents().contains_key(k) ==> r@.contains(k),
    {
        sm_keys(&self.inner)
    }
}

} // verus!
