use schema_salad::any::{decode_any, SaladAny};
use schema_salad::error::{BindError, SaladDowncastError};
use schema_salad::float::{narrow_f64, widen_f32_bits};
use schema_salad::raw::RawTree;
use schema_salad::schema::{FieldDef, RecordDef, Schema, TypeRef};
use schema_salad::value::Value;

fn s(x: &str) -> RawTree {
    RawTree::Str(x.to_string())
}

#[test]
fn integers_take_the_narrowest_width() {
    assert!(matches!(decode_any(&RawTree::Int(7)).unwrap(), SaladAny::Int(7)));
    assert!(matches!(decode_any(&RawTree::Int(i32::MAX as i64)).unwrap(), SaladAny::Int(i32::MAX)));
    assert!(matches!(decode_any(&RawTree::Int(i32::MAX as i64 + 1)).unwrap(), SaladAny::Long(2147483648)));
    assert!(matches!(decode_any(&RawTree::Int(i32::MIN as i64 - 1)).unwrap(), SaladAny::Long(-2147483649)));
}

#[test]
fn floats_take_32_bits_only_when_exact() {
    assert!(matches!(decode_any(&RawTree::Float(2.0f64.to_bits())).unwrap(), SaladAny::Float(b) if f32::from_bits(b) == 2.0));
    assert!(matches!(decode_any(&RawTree::Float(0.1f64.to_bits())).unwrap(), SaladAny::Double(b) if f64::from_bits(b) == 0.1));
    assert!(matches!(decode_any(&RawTree::Float(1e300f64.to_bits())).unwrap(), SaladAny::Double(_)));
    assert!(matches!(decode_any(&RawTree::Float(f64::INFINITY.to_bits())).unwrap(), SaladAny::Double(_)));
}

#[test]
fn narrowing_keeps_values() {
    for x in [0.0f32, -0.0, 1.5, -3.25, f32::MAX, f32::MIN, f32::MIN_POSITIVE, 1e-40, f32::from_bits(1)] {
        let d = x as f64;
        assert_eq!(narrow_f64(d.to_bits()), Some(x.to_bits()), "{}", x);
    }
    for d in [0.1f64, 1e-50, f64::NAN, (f32::MAX as f64) * 2.0, 1.0 + f64::EPSILON] {
        assert_eq!(narrow_f64(d.to_bits()), None, "{}", d);
    }
}

#[test]
fn null_has_no_dynamic_value() {
    assert!(matches!(decode_any(&RawTree::Null), Err(BindError::Mismatch)));
}

#[test]
fn object_rejects_duplicate_keys() {
    let t = RawTree::Mapping(vec![(s("a"), RawTree::Int(1)), (s("a"), RawTree::Int(2))]);
    assert!(matches!(decode_any(&t), Err(BindError::DuplicateField { ref key }) if key == "a"));
}

#[test]
fn object_rejects_non_string_keys() {
    let t = RawTree::Mapping(vec![(RawTree::Int(1), RawTree::Int(1))]);
    assert!(matches!(decode_any(&t), Err(BindError::Mismatch)));
}

#[test]
fn object_lookup() {
    let t = RawTree::Mapping(vec![
        (s("a"), RawTree::Int(1)),
        (s("b"), RawTree::Sequence(vec![RawTree::Bool(true), s("x")])),
    ]);
    match decode_any(&t).unwrap() {
        SaladAny::Object(o) => {
            assert_eq!(o.len(), 2);
            assert!(matches!(o.get("a"), Some(SaladAny::Int(1))));
            match o.get("b") {
                Some(SaladAny::List(items)) => {
                    assert!(matches!(items[0], SaladAny::Bool(true)));
                    assert!(matches!(items[1], SaladAny::String(ref x) if x == "x"));
                },
                other => panic!("{:?}", other),
            }
            assert!(o.get("c").is_none());
        },
        other => panic!("{:?}", other),
    }
}

#[test]
fn downcast_error_without_cause() {
    assert!(SaladDowncastError::new().cause.is_none());
}

fn sample() -> RawTree {
    RawTree::Mapping(vec![
        (s("name"), s("x")),
        (s("n"), RawTree::Int(1 << 40)),
        (s("f"), RawTree::Float(1.5f64.to_bits())),
        (s("tiny"), RawTree::Float((f32::from_bits(3) as f64).to_bits())),
        (s("d"), RawTree::Float(0.1f64.to_bits())),
        (s("l"), RawTree::Sequence(vec![RawTree::Int(-3), RawTree::Bool(false)])),
    ])
}

#[test]
fn decoded_value_round_trips() {
    let a = decode_any(&sample()).unwrap();
    let again = decode_any(&a.to_raw()).unwrap();
    assert_eq!(format!("{:?}", a), format!("{:?}", again));
    match a.to_raw() {
        RawTree::Mapping(es) => {
            assert!(matches!(es[3].1, RawTree::Float(b) if b == (f32::from_bits(3) as f64).to_bits()));
            assert!(matches!(es[1].1, RawTree::Int(x) if x == 1 << 40));
        },
        other => panic!("{:?}", other),
    }
}

fn named_schema() -> Schema {
    let f = |name: &str, ty: TypeRef, optional: bool| FieldDef {
        name: name.to_string(),
        ty,
        optional,
        default: None,
        identifier: false,
        subscope: None,
        map_key: None,
        map_predicate: None,
    };
    Schema {
        records: vec![RecordDef { name: "Named".to_string(), fields: vec![f("name", TypeRef::Str, false), f("n", TypeRef::Long, true)] }],
        unions: vec![],
        enums: vec![],
    }
}

#[test]
fn downcast_binds_to_a_record() {
    let a = decode_any(&sample()).unwrap();
    let v = a.downcast(&named_schema(), &TypeRef::Record(0)).unwrap();
    assert!(matches!(v.field("name"), Some(Value::Str(x)) if x == "x"));
    assert!(matches!(v.field("n"), Some(Value::Long(x)) if *x == 1 << 40));
    match a {
        SaladAny::Object(o) => {
            let v = o.downcast_into(&named_schema(), &TypeRef::Record(0)).unwrap();
            assert!(matches!(v.field("name"), Some(Value::Str(x)) if x == "x"));
        },
        other => panic!("{:?}", other),
    }
}

#[test]
fn downcast_failure_has_a_cause() {
    let a = decode_any(&s("text")).unwrap();
    let e = a.downcast(&named_schema(), &TypeRef::Long).unwrap_err();
    assert!(matches!(e.cause, Some(BindError::Mismatch)));
    let e = decode_any(&RawTree::Mapping(vec![])).unwrap().downcast_into(&named_schema(), &TypeRef::Record(0)).unwrap_err();
    assert!(matches!(e.cause, Some(BindError::MissingField { ref field }) if field == "name"));
}

#[test]
fn widening_keeps_values() {
    for x in [0.0f32, -0.0, 2.0, -7.75, f32::MAX, f32::MIN_POSITIVE, 1e-40, f32::from_bits(1), f32::INFINITY] {
        assert_eq!(widen_f32_bits(x.to_bits()), (x as f64).to_bits(), "{}", x);
    }
}
