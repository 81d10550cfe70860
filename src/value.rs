use vstd::prelude::*;

use crate::any::{AnyModel, SaladAny, SaladObject};

verus! {

/// The mathematical model of a [`Value`].
pub ghost enum ValueModel {
    Bool(bool),
    Int(int),
    Long(int),
    Float(u32),
    Double(u64),
    Str(Seq<char>),
    Any(AnyModel),
    Object(Seq<(Seq<char>, AnyModel)>),
    List(Seq<ValueModel>),
    Record(Seq<(Seq<char>, ValueModel)>),
    Variant(nat, Box<ValueModel>),
    Enum(nat),
}

/// A document bound to a schema type.
#[derive(Debug)]
pub enum Value {
    Bool(bool),
    Int(i32),
    Long(i64),
    /// A 32-bit float, held as its bit pattern.
    Float(u32),
    /// A 64-bit float, held as its bit pattern.
    Double(u64),
    Str(String),
    Any(SaladAny),
    Object(SaladObject),
    List(Vec<Value>),
    /// A record: its fields in document order, then the defaults that were filled in.
    Record(Vec<(String, Value)>),
    /// The value of a union, tagged with the index of the candidate that bound it.
    Variant(usize, Box<Value>),
    /// The index of an enumeration literal.
    Enum(usize),
}

impl View for Value {
    type V = ValueModel;

    open spec fn view(&self) -> ValueModel {
        value_model(*self)
    }
}

/// The model of a bound value.
pub open spec fn value_model(v: Value) -> ValueModel
    decreases v,
{
    match v {
        Value::Bool(b) => ValueModel::Bool(b),
        Value::Int(i) => ValueModel::Int(i as int),
        Value::Long(l) => ValueModel::Long(l as int),
        Value::Float(f) => ValueModel::Float(f),
        Value::Double(d) => ValueModel::Double(d),
        Value::Str(s) => ValueModel::Str(s@),
        Value::Any(a) => ValueModel::Any(a@),
        Value::Object(o) => ValueModel::Object(o@),
        Value::List(items) => ValueModel::List(values_model(items@)),
        Value::Record(fields) => ValueModel::Record(fields_model(fields@)),
        Value::Variant(i, b) => ValueModel::Variant(i as nat, Box::new(value_model(*b))),
        Value::Enum(i) => ValueModel::Enum(i as nat),
    }
}

/// The models of a sequence of bound values.
pub open spec fn values_model(items: Seq<Value>) -> Seq<ValueModel>
    decreases items,
{
    if items.len() == 0 {
        Seq::empty()
    } else {
        values_model(items.drop_last()).push(value_model(items.last()))
    }
}

/// The models of the fields of a record.
pub open spec fn fields_model(fields: Seq<(String, Value)>) -> Seq<(Seq<char>, ValueModel)>
    decreases fields,
{
    if fields.len() == 0 {
        Seq::empty()
    } else {
        fields_model(fields.drop_last()).push((fields.last().0@, value_model(fields.last().1)))
    }
}

/// `fields_model` keeps the length and maps each field to its model.
pub broadcast proof fn lemma_fields_model(fields: Seq<(String, Value)>)
    ensures
        #[trigger] fields_model(fields).len() == fields.len(),
        forall|i: int| 0 <= i < fields.len() ==> fields_model(fields)[i] == (fields[i].0@, fields[i].1@),
    decreases fields.len(),
{
    if fields.len() > 0 {
        lemma_fields_model(fields.drop_last());
    }
}

impl Value {
    /// The value of the first field named `name`, for a record.
    pub fn field(&self, name: &str) -> (r: Option<&Value>)
        ensures
            match r {
                Some(v) => self@ is Record && exists|i: int|
                    0 <= i < self@->Record_0.len() && self@->Record_0[i] == (name@, v@) && forall|j: int|
                        0 <= j < i ==> self@->Record_0[j].0 != name@,
                None => !(self@ is Record) || forall|j: int|
                    0 <= j < self@->Record_0.len() ==> self@->Record_0[j].0 != name@,
            },
    {
        let fields = match self {
            Value::Record(fields) => fields,
            _ => {
                return None;
            },
        };
        proof {
            lemma_fields_model(fields@);
        }
        let k = name.to_owned();
        let mut i: usize = 0;
        while i < fields.len()
            invariant
                i <= fields.len(),
                k@ == name@,
                self@ == ValueModel::Record(fields_model(fields@)),
                fields_model(fields@).len() == fields.len(),
                forall|j: int| 0 <= j < fields.len() ==> fields_model(fields@)[j] == (fields[j].0@, fields[j].1@),
                forall|j: int| 0 <= j < i ==> fields_model(fields@)[j].0 != name@,
            decreases fields.len() - i,
        {
            if fields[i].0 == k {
                assert(fields_model(fields@)[i as int] == (name@, fields[i as int].1@));
                assert(self@->Record_0 == fields_model(fields@));
                assert(self@->Record_0[i as int] == (name@, fields[i as int].1@));
                assert(forall|j: int| 0 <= j < i ==> self@->Record_0[j].0 != name@);
                return Some(&fields[i].1);
            }
            i += 1;
        }
        None
    }
}

} // verus!
