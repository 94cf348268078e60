use ecs::archetype::Archetype;
use ecs::archetype::ArchetypeIntoIter;
use ecs::archetype::Schema;
use ecs::archetype::StructOf;
use ecs::archetype::count_leaves;
use ecs::value::Value;

fn pair(a: i64, b: i64) -> Value {
    Value::Record(vec![Value::Int(a), Value::Int(b)])
}

#[test]
fn count_leaves_flattens_nesting() {
    let flat = Schema::Group(vec![Schema::Leaf, Schema::Leaf]);
    assert_eq!(count_leaves(&flat), 2);
    let nested = Schema::Group(vec![
        Schema::Group(vec![Schema::Leaf, Schema::Leaf]),
        Schema::Leaf,
    ]);
    assert_eq!(count_leaves(&nested), 3);
}

#[test]
fn insert_remove_round_trip() {
    let schema = Schema::Group(vec![Schema::Leaf, Schema::Leaf]);
    let mut arch = StructOf::new(schema);
    let record = Value::Record(vec![pair(0, 0), Value::Opt(None)]);
    let id = arch.insert(record);
    let back = arch.remove(id);
    assert_eq!(back, Some(Value::Record(vec![pair(0, 0), Value::Opt(None)])));
    assert_eq!(arch.len(), 0);
    // removing again finds nothing
    assert_eq!(arch.remove(id), None);
}

#[test]
fn nested_round_trip() {
    // Corpse { nested Unit { tick }, time }
    let schema = Schema::Group(vec![Schema::Group(vec![Schema::Leaf]), Schema::Leaf]);
    let mut arch = StructOf::new(schema);
    let corpse = Value::Record(vec![
        Value::Record(vec![Value::Int(7)]),
        Value::Int(99),
    ]);
    let id = arch.insert(corpse);
    let back = arch.remove(id);
    assert_eq!(
        back,
        Some(Value::Record(vec![
            Value::Record(vec![Value::Int(7)]),
            Value::Int(99),
        ]))
    );
}

#[test]
fn insert_keeps_other_entities() {
    let schema = Schema::Group(vec![Schema::Leaf]);
    let mut arch = StructOf::new(schema);
    let a = arch.insert(Value::Record(vec![Value::Int(1)]));
    let b = arch.insert(Value::Record(vec![Value::Int(2)]));
    assert_ne!(a, b);
    assert_eq!(arch.len(), 2);
    assert_eq!(arch.remove(a), Some(Value::Record(vec![Value::Int(1)])));
    assert_eq!(arch.remove(b), Some(Value::Record(vec![Value::Int(2)])));
}

#[test]
fn ids_enumerate_live_entities_in_order() {
    let schema = Schema::Group(vec![Schema::Leaf]);
    let mut arch = StructOf::new(schema);
    let a = arch.insert(Value::Record(vec![Value::Int(1)]));
    let b = arch.insert(Value::Record(vec![Value::Int(2)]));
    let c = arch.insert(Value::Record(vec![Value::Int(3)]));
    assert_eq!(arch.ids(), vec![a, b, c]);
    arch.remove(b);
    assert_eq!(arch.ids(), vec![a, c]);
}

#[test]
fn into_iter_drains_in_order() {
    let schema = Schema::Group(vec![Schema::Leaf]);
    let mut arch = StructOf::new(schema);
    let a = arch.insert(Value::Record(vec![Value::Int(1)]));
    let b = arch.insert(Value::Record(vec![Value::Int(2)]));
    let mut iter = ArchetypeIntoIter::new(arch);
    assert_eq!(iter.next(), Some((a, Value::Record(vec![Value::Int(1)]))));
    assert_eq!(iter.next(), Some((b, Value::Record(vec![Value::Int(2)]))));
    assert_eq!(iter.next(), None);
}

#[test]
fn archetype_trait_round_trip() {
    let schema = Schema::Group(vec![Schema::Leaf]);
    let mut arch = StructOf::new(schema);
    let v = Value::Record(vec![Value::Bool(true)]);
    let id = Archetype::insert(&mut arch, v);
    assert_eq!(
        Archetype::remove(&mut arch, id),
        Some(Value::Record(vec![Value::Bool(true)]))
    );
}
