use schema_salad::any::SaladAny;
use schema_salad::bind::{bind_document, bind_value, MAX_DEPTH};
use schema_salad::encode::encode_value;
use schema_salad::error::BindError;
use schema_salad::raw::RawTree;
use schema_salad::schema::{EnumDef, FieldDef, RecordDef, Schema, TypeRef, UnionDef};
use schema_salad::scope::SeedData;
use schema_salad::value::Value;

fn s(x: &str) -> RawTree {
    RawTree::Str(x.to_string())
}

fn map(entries: Vec<(&str, RawTree)>) -> RawTree {
    RawTree::Mapping(entries.into_iter().map(|(k, v)| (s(k), v)).collect())
}

fn field(name: &str, ty: TypeRef) -> FieldDef {
    FieldDef {
        name: name.to_string(),
        ty,
        optional: false,
        default: None,
        identifier: false,
        subscope: None,
        map_key: None,
        map_predicate: None,
    }
}

fn optional(name: &str, ty: TypeRef) -> FieldDef {
    FieldDef { optional: true, ..field(name, ty) }
}

fn id_field(name: &str) -> FieldDef {
    FieldDef { identifier: true, ..field(name, TypeRef::Str) }
}

fn record(name: &str, fields: Vec<FieldDef>) -> RecordDef {
    RecordDef { name: name.to_string(), fields }
}

fn schema(records: Vec<RecordDef>, unions: Vec<UnionDef>, enums: Vec<EnumDef>) -> Schema {
    Schema { records, unions, enums }
}

fn str_field<'a>(v: &'a Value, name: &str) -> &'a str {
    match v.field(name) {
        Some(Value::Str(x)) => x.as_str(),
        other => panic!("field {} is {:?}", name, other),
    }
}

fn long_field(v: &Value, name: &str) -> i64 {
    match v.field(name) {
        Some(Value::Long(x)) => *x,
        other => panic!("field {} is {:?}", name, other),
    }
}

fn items(v: &Value) -> &Vec<Value> {
    match v {
        Value::List(items) => items,
        other => panic!("not a list: {:?}", other),
    }
}

// A record {name: string, value: long}; a holder with a map-or-sequence list of them.
fn entry_schema(pred: Option<&str>) -> Schema {
    let entry = record("Entry", vec![field("name", TypeRef::Str), optional("value", TypeRef::Long)]);
    let holder = record(
        "Holder",
        vec![FieldDef {
            map_key: Some("name".to_string()),
            map_predicate: pred.map(|p| p.to_string()),
            ..field("entries", TypeRef::List(Box::new(TypeRef::Record(0))))
        }],
    );
    schema(vec![entry, holder], vec![], vec![])
}

#[test]
fn map_form_binds_as_sequence_form() {
    let sch = entry_schema(None);
    let map_form = map(vec![(
        "entries",
        map(vec![("one", map(vec![("value", RawTree::Int(1))])), ("two", map(vec![("value", RawTree::Int(2))]))]),
    )]);
    let seq_form = map(vec![(
        "entries",
        RawTree::Sequence(vec![
            map(vec![("name", s("one")), ("value", RawTree::Int(1))]),
            map(vec![("name", s("two")), ("value", RawTree::Int(2))]),
        ]),
    )]);
    for doc in [map_form, seq_form] {
        let v = bind_document(&sch, &TypeRef::Record(1), &doc).unwrap();
        let list = items(v.field("entries").unwrap());
        assert_eq!(list.len(), 2);
        assert_eq!(str_field(&list[0], "name"), "one");
        assert_eq!(long_field(&list[0], "value"), 1);
        assert_eq!(str_field(&list[1], "name"), "two");
        assert_eq!(long_field(&list[1], "value"), 2);
    }
}

#[test]
fn scalar_map_entries_use_predicate() {
    let sch = entry_schema(Some("value"));
    let doc = map(vec![("entries", map(vec![("a", RawTree::Int(10)), ("b", RawTree::Int(20))]))]);
    let v = bind_document(&sch, &TypeRef::Record(1), &doc).unwrap();
    let list = items(v.field("entries").unwrap());
    assert_eq!(list.len(), 2);
    assert_eq!(str_field(&list[0], "name"), "a");
    assert_eq!(long_field(&list[0], "value"), 10);
    assert_eq!(str_field(&list[1], "name"), "b");
    assert_eq!(long_field(&list[1], "value"), 20);
}

#[test]
fn scalar_map_entry_without_predicate_fails() {
    let sch = entry_schema(None);
    let doc = map(vec![("entries", map(vec![("a", RawTree::Int(10))]))]);
    let r = bind_document(&sch, &TypeRef::Record(1), &doc);
    assert!(matches!(r, Err(BindError::NotAMapping { ref field }) if field == "name"));
}

#[test]
fn missing_mandatory_field_is_named() {
    let sch = schema(vec![record("Tool", vec![field("class", TypeRef::Str), optional("doc", TypeRef::Str)])], vec![], vec![]);
    let r = bind_document(&sch, &TypeRef::Record(0), &map(vec![("doc", s("x"))]));
    assert!(matches!(r, Err(BindError::MissingField { ref field }) if field == "class"));
}

#[test]
fn default_fills_absent_field() {
    let with_default = FieldDef { default: Some(RawTree::Int(3)), ..field("n", TypeRef::Long) };
    let sch = schema(vec![record("R", vec![with_default])], vec![], vec![]);
    let v = bind_document(&sch, &TypeRef::Record(0), &map(vec![])).unwrap();
    assert_eq!(long_field(&v, "n"), 3);
}

#[test]
fn bad_default_is_reported() {
    let with_default = FieldDef { default: Some(s("three")), ..field("n", TypeRef::Long) };
    let sch = schema(vec![record("R", vec![with_default])], vec![], vec![]);
    let r = bind_document(&sch, &TypeRef::Record(0), &map(vec![]));
    assert!(matches!(r, Err(BindError::InvalidDefault { ref field }) if field == "n"));
}

#[test]
fn duplicate_key_is_reported() {
    let sch = schema(vec![record("R", vec![optional("a", TypeRef::Long)])], vec![], vec![]);
    let doc = RawTree::Mapping(vec![(s("a"), RawTree::Int(1)), (s("b"), RawTree::Int(2)), (s("a"), RawTree::Int(3))]);
    let r = bind_document(&sch, &TypeRef::Record(0), &doc);
    assert!(matches!(r, Err(BindError::DuplicateField { ref key }) if key == "a"));
}

#[test]
fn unknown_keys_are_kept_as_any() {
    let sch = schema(vec![record("R", vec![optional("a", TypeRef::Long)])], vec![], vec![]);
    let v = bind_document(&sch, &TypeRef::Record(0), &map(vec![("x", s("y"))])).unwrap();
    assert!(matches!(v.field("x"), Some(Value::Any(SaladAny::String(ref y))) if y == "y"));
}

// Workflow {id, steps: [Step]}; Step {id}.
fn id_schema() -> Schema {
    let step = record("Step", vec![id_field("id")]);
    let wf = record("Workflow", vec![id_field("id"), optional("steps", TypeRef::List(Box::new(TypeRef::Record(0))))]);
    schema(vec![step, wf], vec![], vec![])
}

#[test]
fn nested_identifier_is_scoped() {
    let doc = map(vec![("id", s("main")), ("steps", RawTree::Sequence(vec![map(vec![("id", s("step1"))])]))]);
    let v = bind_document(&id_schema(), &TypeRef::Record(1), &doc).unwrap();
    assert_eq!(str_field(&v, "id"), "main");
    let steps = items(v.field("steps").unwrap());
    assert_eq!(str_field(&steps[0], "id"), "main/step1");
}

#[test]
fn fragment_identifier_is_absolute() {
    let doc = map(vec![("id", s("main")), ("steps", RawTree::Sequence(vec![map(vec![("id", s("#step1"))])]))]);
    let v = bind_document(&id_schema(), &TypeRef::Record(1), &doc).unwrap();
    let steps = items(v.field("steps").unwrap());
    assert_eq!(str_field(&steps[0], "id"), "step1");
}

#[test]
fn sibling_identifiers_must_differ() {
    let doc = map(vec![
        ("id", s("main")),
        ("steps", RawTree::Sequence(vec![map(vec![("id", s("a"))]), map(vec![("id", s("a"))])])),
    ]);
    let r = bind_document(&id_schema(), &TypeRef::Record(1), &doc);
    assert!(matches!(r, Err(BindError::DuplicateId { ref id }) if id == "main/a"));
}

#[test]
fn registry_is_balanced_after_binding() {
    let doc = map(vec![("id", s("main")), ("steps", RawTree::Sequence(vec![map(vec![("id", s("a"))])]))]);
    let mut reg = SeedData::new();
    bind_value(&id_schema(), &TypeRef::Record(1), &doc, &mut reg, MAX_DEPTH).unwrap();
    assert!(reg.parent().is_none());
    assert!(reg.contains(&"main".to_string()));
    assert!(reg.contains(&"main/a".to_string()));
}

// Two records that both accept {value: long}.
fn union_schema(order: Vec<TypeRef>) -> Schema {
    let a = record("A", vec![optional("value", TypeRef::Long)]);
    let b = record("B", vec![optional("value", TypeRef::Long)]);
    schema(vec![a, b], vec![UnionDef { name: "AB".to_string(), candidates: order }], vec![])
}

#[test]
fn union_takes_first_candidate_that_binds() {
    let doc = map(vec![("value", RawTree::Int(1))]);
    let ab = bind_document(&union_schema(vec![TypeRef::Record(0), TypeRef::Record(1)]), &TypeRef::Union(0), &doc).unwrap();
    assert!(matches!(ab, Value::Variant(0, _)));
    let ba = bind_document(&union_schema(vec![TypeRef::Record(1), TypeRef::Record(0)]), &TypeRef::Union(0), &doc).unwrap();
    assert!(matches!(ba, Value::Variant(0, _)));
    // the same tree, the candidates swapped: the tag follows the order
    let with_long_first = bind_document(&union_schema(vec![TypeRef::Long, TypeRef::Record(0)]), &TypeRef::Union(0), &doc).unwrap();
    assert!(matches!(with_long_first, Value::Variant(1, _)));
}

#[test]
fn union_order_decides_between_any_and_string() {
    let sch = schema(vec![], vec![UnionDef { name: "U".to_string(), candidates: vec![TypeRef::Str, TypeRef::Any] }], vec![]);
    assert!(matches!(bind_document(&sch, &TypeRef::Union(0), &s("x")).unwrap(), Value::Variant(0, _)));
    let swapped = schema(vec![], vec![UnionDef { name: "U".to_string(), candidates: vec![TypeRef::Any, TypeRef::Str] }], vec![]);
    assert!(matches!(bind_document(&swapped, &TypeRef::Union(0), &s("x")).unwrap(), Value::Variant(0, ref v) if matches!(**v, Value::Any(_))));
}

#[test]
fn failed_candidate_leaves_no_identifier() {
    // A registers its id, then fails on `n`; B has the id too and accepts `n` as a string.
    let a = record("A", vec![id_field("id"), field("n", TypeRef::Long)]);
    let b = record("B", vec![optional("id", TypeRef::Str), field("n", TypeRef::Str)]);
    let sch = schema(vec![a, b], vec![UnionDef { name: "AB".to_string(), candidates: vec![TypeRef::Record(0), TypeRef::Record(1)] }], vec![]);
    let doc = map(vec![("id", s("x")), ("n", s("text"))]);
    let mut reg = SeedData::new();
    let v = bind_value(&sch, &TypeRef::Union(0), &doc, &mut reg, MAX_DEPTH).unwrap();
    assert!(matches!(v, Value::Variant(1, _)));
    assert!(!reg.contains(&"x".to_string()));
}

#[test]
fn winning_candidate_identifiers_are_merged() {
    let a = record("A", vec![id_field("id")]);
    let sch = schema(vec![a], vec![UnionDef { name: "U".to_string(), candidates: vec![TypeRef::Record(0)] }], vec![]);
    let mut reg = SeedData::new();
    bind_value(&sch, &TypeRef::Union(0), &map(vec![("id", s("x"))]), &mut reg, MAX_DEPTH).unwrap();
    assert!(reg.contains(&"x".to_string()));
    // the same identifier again clashes on merge
    let r = bind_value(&sch, &TypeRef::Union(0), &map(vec![("id", s("x"))]), &mut reg, MAX_DEPTH);
    assert!(matches!(r, Err(BindError::DuplicateId { ref id }) if id == "x"));
}

#[test]
fn no_candidate_names_the_union() {
    let sch = schema(vec![], vec![UnionDef { name: "Num".to_string(), candidates: vec![TypeRef::Long, TypeRef::Bool] }], vec![]);
    let r = bind_document(&sch, &TypeRef::Union(0), &s("x"));
    assert!(matches!(r, Err(BindError::NoCandidate { ref union_name }) if union_name == "Num"));
}

#[test]
fn enum_matches_literal_case_sensitively() {
    let sch = schema(vec![], vec![], vec![EnumDef { name: "Kind".to_string(), literals: vec!["File".to_string(), "Directory".to_string()] }]);
    assert!(matches!(bind_document(&sch, &TypeRef::Enum(0), &s("Directory")).unwrap(), Value::Enum(1)));
    let r = bind_document(&sch, &TypeRef::Enum(0), &s("file"));
    assert!(matches!(r, Err(BindError::UnknownLiteral { ref value, ref accepted }) if value == "file" && accepted == &vec!["File".to_string(), "Directory".to_string()]));
}

#[test]
fn primitives_check_shape() {
    let sch = schema(vec![], vec![], vec![]);
    assert!(matches!(bind_document(&sch, &TypeRef::Int, &RawTree::Int(5)).unwrap(), Value::Int(5)));
    assert!(matches!(bind_document(&sch, &TypeRef::Int, &RawTree::Int(1 << 40)), Err(BindError::Mismatch)));
    assert!(matches!(bind_document(&sch, &TypeRef::Bool, &s("true")), Err(BindError::Mismatch)));
    assert!(matches!(bind_document(&sch, &TypeRef::Float, &RawTree::Float(0.5f64.to_bits())).unwrap(), Value::Float(b) if f32::from_bits(b) == 0.5));
    assert!(matches!(bind_document(&sch, &TypeRef::Float, &RawTree::Float(0.1f64.to_bits())), Err(BindError::Mismatch)));
    assert!(matches!(bind_document(&sch, &TypeRef::Double, &RawTree::Float(0.1f64.to_bits())).unwrap(), Value::Double(b) if f64::from_bits(b) == 0.1));
}

#[test]
fn nesting_beyond_the_limit_fails() {
    let mut t = RawTree::Int(1);
    for _ in 0..(MAX_DEPTH + 1) {
        t = RawTree::Sequence(vec![t]);
    }
    let mut ty = TypeRef::Long;
    for _ in 0..(MAX_DEPTH + 1) {
        ty = TypeRef::List(Box::new(ty));
    }
    let sch = schema(vec![], vec![], vec![]);
    assert!(matches!(bind_document(&sch, &ty, &t), Err(BindError::TooDeep)));
}

#[test]
fn binding_twice_gives_the_same_result() {
    let doc = map(vec![("id", s("main")), ("steps", RawTree::Sequence(vec![map(vec![("id", s("a"))])]))]);
    let one = bind_document(&id_schema(), &TypeRef::Record(1), &doc).unwrap();
    let two = bind_document(&id_schema(), &TypeRef::Record(1), &doc).unwrap();
    assert_eq!(format!("{:?}", one), format!("{:?}", two));
}

#[test]
fn subscope_field_prefixes_nested_ids() {
    let step = record("Step", vec![id_field("id")]);
    let wf = record(
        "Workflow",
        vec![id_field("id"), FieldDef { subscope: Some("run".to_string()), ..optional("steps", TypeRef::List(Box::new(TypeRef::Record(0)))) }],
    );
    let sch = schema(vec![step, wf], vec![], vec![]);
    let doc = map(vec![("id", s("main")), ("steps", RawTree::Sequence(vec![map(vec![("id", s("a"))])]))]);
    let v = bind_document(&sch, &TypeRef::Record(1), &doc).unwrap();
    let steps = items(v.field("steps").unwrap());
    assert_eq!(str_field(&steps[0], "id"), "main/run/a");
}

#[test]
fn registry_state_does_not_change_identifier_free_results() {
    let sch = entry_schema(Some("value"));
    let doc = map(vec![("entries", map(vec![("a", RawTree::Int(10))]))]);
    let mut fresh = SeedData::new();
    let mut used = SeedData::new();
    used.generate_id("elsewhere").unwrap();
    used.push_subscope("deep");
    let one = bind_value(&sch, &TypeRef::Record(1), &doc, &mut fresh, MAX_DEPTH).unwrap();
    let two = bind_value(&sch, &TypeRef::Record(1), &doc, &mut used, MAX_DEPTH).unwrap();
    assert_eq!(format!("{:?}", one), format!("{:?}", two));
}

#[test]
fn encoded_values_bind_again() {
    let sch = schema(vec![], vec![], vec![EnumDef { name: "Kind".to_string(), literals: vec!["File".to_string(), "Directory".to_string()] }]);
    let ty = TypeRef::List(Box::new(TypeRef::Enum(0)));
    let v = bind_document(&sch, &ty, &RawTree::Sequence(vec![s("Directory"), s("File")])).unwrap();
    let t = encode_value(&sch, &ty, &v);
    assert!(matches!(&t, RawTree::Sequence(items) if matches!(&items[0], RawTree::Str(x) if x == "Directory")));
    let again = bind_document(&sch, &ty, &t).unwrap();
    assert_eq!(format!("{:?}", v), format!("{:?}", again));
    // a singleton given bare is written as a one-element sequence
    let single = bind_document(&sch, &ty, &s("File")).unwrap();
    assert!(matches!(encode_value(&sch, &ty, &single), RawTree::Sequence(items) if items.len() == 1));
}

#[test]
fn encoded_record_keeps_fields() {
    let sch = entry_schema(Some("value"));
    let doc = map(vec![("entries", map(vec![("a", RawTree::Int(10))]))]);
    let v = bind_document(&sch, &TypeRef::Record(1), &doc).unwrap();
    let again = bind_document(&sch, &TypeRef::Record(1), &encode_value(&sch, &TypeRef::Record(1), &v)).unwrap();
    assert_eq!(format!("{:?}", v), format!("{:?}", again));
}

#[test]
fn identifiers_do_not_round_trip_under_a_parent() {
    let doc = map(vec![("id", s("main")), ("steps", RawTree::Sequence(vec![map(vec![("id", s("step1"))])]))]);
    let v = bind_document(&id_schema(), &TypeRef::Record(1), &doc).unwrap();
    let again = bind_document(&id_schema(), &TypeRef::Record(1), &encode_value(&id_schema(), &TypeRef::Record(1), &v)).unwrap();
    let steps = items(again.field("steps").unwrap());
    assert_eq!(str_field(&steps[0], "id"), "main/main/step1");
}
