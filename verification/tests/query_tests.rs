use ecs::get::FieldSpec;
use ecs::get::get;
use ecs::archetype::Schema;
use ecs::archetype::StructOf;
use ecs::hashstorage::Id;
use ecs::optic::Optic;
use ecs::optic::OpticError;
use ecs::optic::Token;
use ecs::query::Query;
use ecs::query::QueryComponents;
use ecs::query::StructQuery;
use ecs::query::apply_rows;
use ecs::query::query;
use ecs::query::query_rows;
use ecs::value::Value;

fn field(tokens: Vec<Token>) -> FieldSpec {
    FieldSpec::parse(true, false, &tokens).unwrap()
}

fn field_mut(tokens: Vec<Token>) -> FieldSpec {
    FieldSpec::parse(true, true, &tokens).unwrap()
}

fn pair(a: i64, b: i64) -> Value {
    Value::Record(vec![Value::Int(a), Value::Int(b)])
}

fn opt(v: Option<Value>) -> Value {
    Value::Opt(v.map(Box::new))
}

/// An archetype with fields pos (a pair, column 0) and dmg (optional,
/// column 1), holding { pos: (0,0), dmg: nothing } and
/// { pos: (1,-2), dmg: 15 tenths }.
fn units() -> (StructOf, Id, Id) {
    let schema = Schema::Group(vec![Schema::Leaf, Schema::Leaf]);
    let mut arch = StructOf::new(schema);
    let a = arch.insert(Value::Record(vec![pair(0, 0), opt(None)]));
    let b = arch.insert(Value::Record(vec![pair(1, -2), opt(Some(Value::Int(15)))]));
    (arch, a, b)
}

#[test]
fn filtered_query_keeps_only_present_optionals() {
    let (arch, _a, b) = units();
    // (&pos, &dmg.Get.Some)
    let fields = vec![
        field(vec![Token::Ident(0)]),
        field(vec![Token::Ident(1), Token::KwGet, Token::KwSome]),
    ];
    let rows = query_rows(&arch, &fields).unwrap();
    assert_eq!(rows.len(), 1);
    assert_eq!(rows[0].0, b);
    assert_eq!(rows[0].1, vec![pair(1, -2), Value::Int(15)]);
}

#[test]
fn row_ids_follow_the_live_order() {
    let (mut arch, a, b) = units();
    let c = arch.insert(Value::Record(vec![pair(5, 5), opt(Some(Value::Int(1)))]));
    let fields = vec![field(vec![Token::Ident(0)])];
    let rows = query_rows(&arch, &fields).unwrap();
    let row_ids: Vec<Id> = rows.iter().map(|r| r.0).collect();
    assert_eq!(row_ids, arch.ids());
    assert_eq!(row_ids, vec![a, b, c]);
    // with the optional field requested, the id sequence is the live order
    // filtered to the surviving rows
    let fields = vec![
        field(vec![Token::Ident(0)]),
        field(vec![Token::Ident(1), Token::KwGet, Token::KwSome]),
    ];
    let rows = query_rows(&arch, &fields).unwrap();
    let row_ids: Vec<Id> = rows.iter().map(|r| r.0).collect();
    assert_eq!(row_ids, vec![b, c]);
}

#[test]
fn get_short_circuits_on_the_first_absent_field() {
    let (arch, a, _b) = units();
    // [dmg: optional and absent for a, pos: required]
    let fields = vec![
        field(vec![Token::Ident(1), Token::KwGet, Token::KwSome]),
        field(vec![Token::Ident(0)]),
    ];
    assert_eq!(get(&arch, a, &fields), Ok(None));
}

#[test]
fn get_yields_the_full_row_when_everything_is_present() {
    let (arch, _a, b) = units();
    let fields = vec![
        FieldSpec::parse(false, false, &vec![Token::KwId]).unwrap(),
        field(vec![Token::Ident(0)]),
        field(vec![Token::Ident(1), Token::KwGet, Token::KwSome]),
    ];
    let row = get(&arch, b, &fields).unwrap().unwrap();
    assert_eq!(row, vec![Value::Id(b.raw()), pair(1, -2), Value::Int(15)]);
}

#[test]
fn nested_field_query_reads_only_the_nested_column() {
    // Corpse { nested Unit { tick }, time }
    let schema = Schema::Group(vec![Schema::Group(vec![Schema::Leaf]), Schema::Leaf]);
    let mut corpses = StructOf::new(schema);
    corpses.insert(Value::Record(vec![
        Value::Record(vec![Value::Int(7)]),
        Value::Int(99),
    ]));
    corpses.insert(Value::Record(vec![
        Value::Record(vec![Value::Int(8)]),
        Value::Int(100),
    ]));
    // (&unit.tick)
    let fields = vec![field(vec![Token::Ident(0), Token::Ident(0)])];
    let rows = query_rows(&corpses, &fields).unwrap();
    assert_eq!(rows.len(), 2);
    assert_eq!(rows[0].1, vec![Value::Int(7)]);
    assert_eq!(rows[1].1, vec![Value::Int(8)]);
}

#[test]
fn chained_query_mutates_each_archetype_in_place() {
    // Units and Particles both expose pos as their first column
    let mut units = StructOf::new(Schema::Group(vec![Schema::Leaf]));
    let u0 = units.insert(Value::Record(vec![Value::Int(1)]));
    let u1 = units.insert(Value::Record(vec![Value::Int(2)]));
    let mut particles = StructOf::new(Schema::Group(vec![Schema::Leaf]));
    let p0 = particles.insert(Value::Record(vec![Value::Int(10)]));
    let fields = vec![field_mut(vec![Token::Ident(0)])];

    let archs = vec![units, particles];
    let rows = query(&archs, &fields).unwrap();
    // chained rows come archetype by archetype, in the order given
    assert_eq!(
        rows,
        vec![
            (u0, vec![Value::Int(1)]),
            (u1, vec![Value::Int(2)]),
            (p0, vec![Value::Int(10)]),
        ]
    );

    // write each row back incremented, per archetype
    // ids count per archetype, so the chained rows are split positionally:
    // the units' two rows came first, the particles' row after them
    let mut archs = archs;
    let mut unit_rows = Vec::new();
    let mut particle_rows = Vec::new();
    for (i, (id, row)) in rows.into_iter().enumerate() {
        let bumped = match &row[0] {
            Value::Int(n) => vec![Value::Int(n + 1)],
            _ => unreachable!(),
        };
        if i < 2 {
            unit_rows.push((id, bumped));
        } else {
            particle_rows.push((id, bumped));
        }
    }
    apply_rows(&mut archs[0], &fields, &unit_rows).unwrap();
    apply_rows(&mut archs[1], &fields, &particle_rows).unwrap();

    let rows = query(&archs, &fields).unwrap();
    assert_eq!(
        rows,
        vec![
            (u0, vec![Value::Int(2)]),
            (u1, vec![Value::Int(3)]),
            (p0, vec![Value::Int(11)]),
        ]
    );
}

#[test]
fn authoring_errors_are_reported_before_any_access() {
    let (arch, _a, _b) = units();
    let no_fields: Vec<FieldSpec> = Vec::new();
    assert_eq!(query_rows(&arch, &no_fields), Err(OpticError::NoFields));
    assert_eq!(get(&arch, _a, &no_fields), Err(OpticError::NoFields));
    // a path to a field the schema does not have
    let fields = vec![field(vec![Token::Ident(9)])];
    assert_eq!(query_rows(&arch, &fields), Err(OpticError::NoSuchField));
    // a path that stops on a nested group instead of a column
    let schema = Schema::Group(vec![Schema::Group(vec![Schema::Leaf]), Schema::Leaf]);
    let corpses = StructOf::new(schema);
    let fields = vec![field(vec![Token::Ident(0)])];
    assert_eq!(query_rows(&corpses, &fields), Err(OpticError::NotAColumn));
}

#[test]
fn field_spec_rejects_bad_markers() {
    // only `id` may be taken as a plain value
    assert_eq!(
        FieldSpec::parse(false, false, &vec![Token::Ident(0)]),
        Err(OpticError::ValueWithoutRef)
    );
    // the id optic cannot be mutable
    assert_eq!(
        FieldSpec::parse(true, true, &vec![Token::KwId]),
        Err(OpticError::IdMutable)
    );
    // parse errors pass through
    assert_eq!(
        FieldSpec::parse(true, false, &vec![Token::Ident(0), Token::KwSome]),
        Err(OpticError::FilterBeforeFetch)
    );
}

#[test]
fn query_wrapper_walks_the_surviving_rows() {
    let (arch, _a, b) = units();
    let fields = vec![
        field(vec![Token::Ident(0)]),
        field(vec![Token::Ident(1), Token::KwGet, Token::KwSome]),
    ];
    let q = Query::new((arch, fields));
    assert_eq!(q.get(b), Some(vec![pair(1, -2), Value::Int(15)]));
    let mut it = q.iter();
    match it.next() {
        Some(row) => {
            assert_eq!(row.0, b);
            assert_eq!(row.1, vec![pair(1, -2), Value::Int(15)]);
        }
        None => panic!("expected one row"),
    }
    assert!(it.next().is_none());
}

#[test]
fn struct_query_wraps_components() {
    let (arch, _a, b) = units();
    let fields = vec![field(vec![Token::Ident(0)])];
    let q = <Value as StructQuery>::query((arch, fields));
    assert_eq!(q.get(b), Some(vec![pair(1, -2)]));
}

#[test]
fn components_of_one_archetype_report_its_ids() {
    let (arch, a, b) = units();
    let fields = vec![field(vec![Token::Ident(0)])];
    let comps = (arch, fields);
    assert_eq!(QueryComponents::ids(&comps), vec![a, b]);
    assert_eq!(
        QueryComponents::get(&comps, a),
        Some(vec![pair(0, 0)])
    );
}
