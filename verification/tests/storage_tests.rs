use ecs::hashstorage::HashStorage;
use ecs::value::Value;

#[test]
fn hash_storage_insert_get_remove() {
    let mut col: HashStorage<Value> = HashStorage::new();
    let a = col.insert(Value::Int(1));
    let b = col.insert(Value::Int(2));
    assert_ne!(a, b);
    assert_eq!(col.len(), 2);
    assert_eq!(col.get(a), Some(&Value::Int(1)));
    assert_eq!(col.get(b), Some(&Value::Int(2)));
    assert_eq!(col.remove(a), Some(Value::Int(1)));
    assert_eq!(col.get(a), None);
    assert_eq!(col.remove(a), None);
    assert_eq!(col.len(), 1);
}

#[test]
fn hash_storage_ids_in_insertion_order() {
    let mut col: HashStorage<Value> = HashStorage::new();
    let a = col.insert(Value::Int(10));
    let b = col.insert(Value::Int(20));
    let c = col.insert(Value::Int(30));
    let ids = col.ids();
    assert_eq!(ids, vec![a, b, c]);
    // ids are never reused after a removal
    col.remove(b);
    let d = col.insert(Value::Int(40));
    assert_ne!(d, b);
    assert_eq!(col.ids(), vec![a, c, d]);
}

#[test]
fn hash_storage_update_replaces_in_place() {
    let mut col: HashStorage<Value> = HashStorage::new();
    let a = col.insert(Value::Bool(false));
    let old = col.update(a, Value::Bool(true));
    assert_eq!(old, Some(Value::Bool(false)));
    assert_eq!(col.get(a), Some(&Value::Bool(true)));
}

#[test]
fn parallel_fetch_and_store() {
    let mut col: HashStorage<Value> = HashStorage::new();
    let a = col.insert(Value::Int(1));
    let b = col.insert(Value::Int(2));
    let ids = vec![a, b];
    let fetched = col.fetch_many(&ids);
    assert_eq!(fetched, vec![Value::Int(1), Value::Int(2)]);
    col.store_many(&ids, vec![Value::Int(10), Value::Int(20)]);
    assert_eq!(col.get(a), Some(&Value::Int(10)));
    assert_eq!(col.get(b), Some(&Value::Int(20)));
}

#[test]
fn disjoint_parallel_stores_do_not_interfere() {
    let mut col: HashStorage<Value> = HashStorage::new();
    let a0 = col.insert(Value::Int(1));
    let a1 = col.insert(Value::Int(2));
    let b0 = col.insert(Value::Int(3));
    let b1 = col.insert(Value::Int(4));
    let group_a = vec![a0, a1];
    let group_b = vec![b0, b1];
    let b_before = col.fetch_many(&group_b);
    // mutate through the first id set only
    col.store_many(&group_a, vec![Value::Int(100), Value::Int(200)]);
    let b_after = col.fetch_many(&group_b);
    assert_eq!(b_before, b_after);
    assert_eq!(col.get(b0), Some(&Value::Int(3)));
    assert_eq!(col.get(b1), Some(&Value::Int(4)));
    assert_eq!(col.get(a0), Some(&Value::Int(100)));
}

use ecs::arena::ArenaStorage;
use ecs::storage::Storage;
use ecs::storage::VecStorage;

#[test]
fn arena_storage_basic() {
    let mut col = ArenaStorage::new();
    assert_eq!(col.len(), 0);
    let a = col.insert(Value::Int(5));
    let b = col.insert(Value::Int(6));
    assert_ne!(a, b);
    assert_eq!(col.len(), 2);
    assert_eq!(col.get(a), Some(&Value::Int(5)));
    assert!(col.get_mut(a, Value::Int(50)));
    assert_eq!(col.get(a), Some(&Value::Int(50)));
    let mut ids = col.ids();
    ids.sort();
    let mut expect = vec![a, b];
    expect.sort();
    assert_eq!(ids, expect);
    assert_eq!(col.remove(a), Some(Value::Int(50)));
    assert_eq!(col.get(a), None);
    assert_eq!(col.remove(a), None);
    // a removed key never comes back
    let c = col.insert(Value::Int(7));
    assert_ne!(c, a);
}

#[test]
fn arena_alias_forms_are_not_live() {
    // a slot map key's raw form always has an odd version half; the raw
    // form with the version bit cleared names no entry of its own
    let mut col = ArenaStorage::new();
    let a = col.insert(Value::Int(5));
    assert_eq!((a >> 32) & 1, 1);
    let alias = a - (1u64 << 32);
    assert_eq!(col.get(alias), None);
    assert!(!col.get_mut(alias, Value::Int(9)));
    assert_eq!(col.remove(alias), None);
    assert_eq!(col.get(a), Some(&Value::Int(5)));
}

#[test]
fn vec_storage_tombstones() {
    let mut col = VecStorage::new();
    let a = Storage::insert(&mut col, Value::Int(1));
    let b = Storage::insert(&mut col, Value::Int(2));
    assert_eq!(Storage::ids(&col), vec![a, b]);
    assert_eq!(Storage::remove(&mut col, a), Some(Value::Int(1)));
    // the position is not handed out again
    let c = Storage::insert(&mut col, Value::Int(3));
    assert_ne!(c, a);
    assert_eq!(Storage::ids(&col), vec![b, c]);
    assert_eq!(Storage::get(&col, a), None);
    assert!(Storage::set(&mut col, b, Value::Int(20)));
    assert!(!Storage::set(&mut col, a, Value::Int(99)));
    assert_eq!(Storage::get(&col, b), Some(&Value::Int(20)));
}

#[test]
fn storage_trait_over_hash_column() {
    let mut col: HashStorage<Value> = HashStorage::new();
    let a = Storage::insert(&mut col, Value::Int(8));
    assert_eq!(Storage::get(&col, a), Some(&Value::Int(8)));
    assert_eq!(Storage::ids(&col), vec![a]);
    assert_eq!(Storage::remove(&mut col, a), Some(Value::Int(8)));
    assert_eq!(Storage::get(&col, a), None);
}
