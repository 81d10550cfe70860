use schema_salad::any::SaladAny;
use schema_salad::bind::{bind_document, MapDeserializeSeed};
use schema_salad::raw::RawTree;
use schema_salad::schema::{Schema, TypeRef};
use schema_salad::scope::SeedData;
use schema_salad::value::Value;

fn s(x: &str) -> RawTree {
    RawTree::Str(x.to_string())
}

fn map(entries: Vec<(&str, RawTree)>) -> RawTree {
    RawTree::Mapping(entries.into_iter().map(|(k, v)| (s(k), v)).collect())
}

fn empty_schema() -> Schema {
    Schema { records: vec![], unions: vec![], enums: vec![] }
}

fn any_list() -> TypeRef {
    TypeRef::List(Box::new(TypeRef::Any))
}

fn list_items(v: Value) -> Vec<Value> {
    match v {
        Value::List(items) => items,
        other => panic!("not a list: {:?}", other),
    }
}

fn object_key_is(v: &Value, key: &str, want: &str) -> bool {
    match v {
        Value::Object(o) => matches!(o.get(key), Some(SaladAny::String(x)) if x == want),
        _ => false,
    }
}

#[test]
fn single_object_entry() {
    let input = map(vec![("type", s("object")), ("key", s("value"))]);
    let object = bind_document(&empty_schema(), &any_list(), &input);
    let r = list_items(object.unwrap());
    assert!(matches!(r[0], Value::Any(SaladAny::Object(_))));
}

#[test]
fn single_primitive_entry() {
    let input = s("Hello, World!");
    let string = bind_document(&empty_schema(), &any_list(), &input);
    let r = list_items(string.unwrap());
    assert!(matches!(r[0], Value::Any(SaladAny::String(_))));
}

#[test]
fn multiple_entries() {
    let input = RawTree::Sequence(vec![
        RawTree::Int(1),
        RawTree::Float(2.0f64.to_bits()),
        RawTree::Bool(true),
        s("Hello, World!"),
        map(vec![("type", s("object")), ("key", s("value"))]),
    ]);
    let string = bind_document(&empty_schema(), &any_list(), &input);
    let r = list_items(string.unwrap());
    assert!(matches!(r[1], Value::Any(SaladAny::Float(_))) && matches!(r[3], Value::Any(SaladAny::String(_))));
}

fn keyed(input: &RawTree) -> Vec<Value> {
    let seed = MapDeserializeSeed::new("class", Some("key"));
    let mut reg = SeedData::new();
    seed.deserialize(&empty_schema(), &TypeRef::Object, input, &mut reg).unwrap()
}

#[test]
fn list_entries() {
    let input = RawTree::Sequence(vec![
        map(vec![("class", s("class_one")), ("key", s("value_1"))]),
        map(vec![("class", s("class_two")), ("key", s("value_2"))]),
        map(vec![("class", s("class_three")), ("key", s("value_3"))]),
    ]);
    let r = keyed(&input);
    assert!(object_key_is(&r[1], "key", "value_2"));
}

#[test]
fn map_entries() {
    let input = map(vec![
        ("class_one", map(vec![("key", s("value_1"))])),
        ("class_two", map(vec![("key", s("value_2"))])),
        ("class_three", map(vec![("key", s("value_3"))])),
    ]);
    let r = keyed(&input);
    assert!(object_key_is(&r[1], "key", "value_2"));
}

#[test]
fn map_entries_with_predicate() {
    let input = map(vec![
        ("class_one", s("value_1")),
        ("class_two", s("value_2")),
        ("class_three", map(vec![("key", s("value_3"))])),
    ]);
    let r = keyed(&input);
    assert!(object_key_is(&r[1], "key", "value_2"));
    assert!(object_key_is(&r[1], "class", "class_two"));
    assert!(object_key_is(&r[2], "class", "class_three"));
}

#[test]
fn map_entry_scalar_without_predicate_fails() {
    let input = map(vec![("class_one", s("value_1"))]);
    let seed = MapDeserializeSeed::new("class", None);
    let mut reg = SeedData::new();
    let r = seed.deserialize(&empty_schema(), &TypeRef::Object, &input, &mut reg);
    assert!(matches!(r, Err(schema_salad::error::BindError::NotAMapping { ref field }) if field == "class"));
}

#[test]
fn keyed_list_sequence_is_unchanged() {
    let input = RawTree::Sequence(vec![map(vec![("a", RawTree::Int(1))]), map(vec![("b", RawTree::Int(2))])]);
    let seed = MapDeserializeSeed::new("name", None);
    let mut reg = SeedData::new();
    let r = seed.deserialize(&empty_schema(), &TypeRef::Object, &input, &mut reg).unwrap();
    assert_eq!(r.len(), 2);
    match &r[0] {
        Value::Object(o) => {
            assert_eq!(o.len(), 1);
            assert!(o.get("name").is_none());
            assert!(matches!(o.get("a"), Some(SaladAny::Int(1))));
        },
        other => panic!("{:?}", other),
    }
}

#[test]
fn one_or_many_wraps_a_scalar() {
    let r = list_items(bind_document(&empty_schema(), &TypeRef::List(Box::new(TypeRef::Long)), &RawTree::Int(7)).unwrap());
    assert_eq!(r.len(), 1);
    assert!(matches!(r[0], Value::Long(7)));
}
