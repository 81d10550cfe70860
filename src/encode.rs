use vstd::prelude::*;

use crate::any::{raw_entries, raw_of};
use crate::bind::{field_index, find_field};
use crate::float::{widen_f32, widen_f32_bits};
use crate::raw::{lemma_node_of_str, nodes_of, pairs_of, RawNode, RawTree};
use crate::schema::{elem_type, FieldDef, Schema, TypeRef};
use crate::value::{fields_model, lemma_fields_model, value_model, values_model, Value, ValueModel};

verus! {

broadcast use vstd::std_specs::vec::group_vec_axioms;

/// The declared fields of a record type; none for another type.
pub open spec fn record_fields(s: Schema, ty: TypeRef) -> Seq<FieldDef> {
    match ty {
        TypeRef::Record(r) => if r < s.records.len() {
            s.records[r as int].fields@
        } else {
            Seq::empty()
        },
        _ => Seq::empty(),
    }
}

/// The type that a record field named `k` is written with: its declared
/// type, or `Any` for a field the record does not declare.
pub open spec fn field_type(fields: Seq<FieldDef>, k: Seq<char>) -> TypeRef {
    match field_index(fields, k) {
        Some(i) => fields[i as int].ty,
        None => TypeRef::Any,
    }
}

/// The tree that a value bound to `ty` is written as: scalars as themselves
/// (integers and floats at 64 bits), an enumeration value as its literal, a
/// union value as its candidate's value, lists as sequences and records as
/// mappings of their fields.
pub open spec fn encode(s: Schema, ty: TypeRef, v: ValueModel) -> RawNode
    decreases v,
{
    match v {
        ValueModel::Bool(b) => RawNode::Bool(b),
        ValueModel::Int(i) => RawNode::Int(i),
        ValueModel::Long(l) => RawNode::Int(l),
        ValueModel::Float(f) => RawNode::Float(widen_f32(f)),
        ValueModel::Double(d) => RawNode::Float(d),
        ValueModel::Str(x) => RawNode::Str(x),
        ValueModel::Any(a) => raw_of(a),
        ValueModel::Object(o) => RawNode::Mapping(raw_entries(o)),
        ValueModel::Enum(i) => match ty {
            TypeRef::Enum(e) => if e < s.enums.len() && i < s.enums[e as int].literals.len() {
                RawNode::Str(s.enums[e as int].literals@[i as int]@)
            } else {
                RawNode::Null
            },
            _ => RawNode::Null,
        },
        ValueModel::Variant(i, inner) => match ty {
            TypeRef::Union(u) => if u < s.unions.len() && i < s.unions[u as int].candidates.len() {
                encode(s, s.unions[u as int].candidates@[i as int], *inner)
            } else {
                RawNode::Null
            },
            _ => RawNode::Null,
        },
        ValueModel::List(items) => RawNode::Sequence(encode_items(s, elem_type(ty), items)),
        ValueModel::Record(fields) => RawNode::Mapping(encode_fields(s, record_fields(s, ty), fields)),
    }
}

/// The trees of list items of type `t`.
pub open spec fn encode_items(s: Schema, t: TypeRef, items: Seq<ValueModel>) -> Seq<RawNode>
    decreases items,
{
    if items.len() == 0 {
        Seq::empty()
    } else {
        encode_items(s, t, items.drop_last()).push(encode(s, t, items.last()))
    }
}

/// The mapping entries of record fields, each written with its field's type.
pub open spec fn encode_fields(s: Schema, decl: Seq<FieldDef>, fields: Seq<(Seq<char>, ValueModel)>) -> Seq<(RawNode, RawNode)>
    decreases fields,
{
    if fields.len() == 0 {
        Seq::empty()
    } else {
        encode_fields(s, decl, fields.drop_last()).push(
            (RawNode::Str(fields.last().0), encode(s, field_type(decl, fields.last().0), fields.last().1)),
        )
    }
}

/// Writes a value bound to `ty` as a tree; see [`encode`].
#[verifier::loop_isolation(false)]
pub fn encode_value(s: &Schema, ty: &TypeRef, v: &Value) -> (r: RawTree)
    ensures
        r@ == encode(*s, *ty, v@),
    decreases v,
{
    match v {
        Value::Bool(b) => RawTree::Bool(*b),
        Value::Int(i) => RawTree::Int(*i as i64),
        Value::Long(l) => RawTree::Int(*l),
        Value::Float(f) => RawTree::Float(widen_f32_bits(*f)),
        Value::Double(d) => RawTree::Float(*d),
        Value::Str(x) => RawTree::Str(x.clone()),
        Value::Any(a) => a.to_raw(),
        Value::Object(o) => RawTree::Mapping(o.raw_entries_exec()),
        Value::Enum(i) => match ty {
            TypeRef::Enum(e) => {
                if *e < s.enums.len() && *i < s.enums[*e].literals.len() {
                    RawTree::Str(s.enums[*e].literals[*i].clone())
                } else {
                    RawTree::Null
                }
            },
            _ => RawTree::Null,
        },
        Value::Variant(i, inner) => match ty {
            TypeRef::Union(u) => {
                if *u < s.unions.len() && *i < s.unions[*u].candidates.len() {
                    encode_value(s, &s.unions[*u].candidates[*i], inner)
                } else {
                    RawTree::Null
                }
            },
            _ => RawTree::Null,
        },
        Value::List(items) => {
            let elem = match ty {
                TypeRef::List(inner) => &**inner,
                other => other,
            };
            RawTree::Sequence(encode_list(s, elem, items))
        },
        Value::Record(fields) => {
            let empty: Vec<FieldDef> = Vec::new();
            let decl = match ty {
                TypeRef::Record(r) => if *r < s.records.len() {
                    &s.records[*r].fields
                } else {
                    &empty
                },
                _ => &empty,
            };
            assert(decl@ =~= record_fields(*s, *ty));
            RawTree::Mapping(encode_record(s, decl, fields))
        },
    }
}

/// Writes list items of type `elem`; see [`encode_items`].
#[verifier::loop_isolation(false)]
fn encode_list(s: &Schema, elem: &TypeRef, items: &Vec<Value>) -> (r: Vec<RawTree>)
    ensures
        nodes_of(r@) == encode_items(*s, *elem, values_model(items@)),
    decreases items,
{
    let mut out: Vec<RawTree> = Vec::new();
    let mut i: usize = 0;
    while i < items.len()
        invariant
            i <= items.len(),
            nodes_of(out@) == encode_items(*s, *elem, values_model(items@.subrange(0, i as int))),
        decreases items.len() - i,
    {
        proof {
            assert(decreases_to!(items => items[i as int]));
        }
        let t = encode_value(s, elem, &items[i]);
        let ghost before = out@;
        out.push(t);
        assert(out@.drop_last() =~= before);
        let ghost sub = items@.subrange(0, i + 1);
        let ghost prev = items@.subrange(0, i as int);
        assert(sub.drop_last() =~= prev);
        assert(sub.last() == items@[i as int]);
        assert(values_model(sub) == values_model(prev).push(value_model(items@[i as int])));
        assert(values_model(sub).drop_last() =~= values_model(prev));
        i += 1;
    }
    assert(items@.subrange(0, items.len() as int) =~= items@);
    out
}

/// Writes record fields, each with its declared type; see [`encode_fields`].
#[verifier::loop_isolation(false)]
#[verifier::rlimit(100)]
fn encode_record(s: &Schema, decl: &Vec<FieldDef>, fields: &Vec<(String, Value)>) -> (r: Vec<(RawTree, RawTree)>)
    ensures
        pairs_of(r@) == encode_fields(*s, decl@, fields_model(fields@)),
    decreases fields,
{
    let mut out: Vec<(RawTree, RawTree)> = Vec::new();
    let mut i: usize = 0;
    proof {
        lemma_fields_model(fields@);
    }
    while i < fields.len()
        invariant
            i <= fields.len(),
            pairs_of(out@) == encode_fields(*s, decl@, fields_model(fields@.subrange(0, i as int))),
        decreases fields.len() - i,
    {
        proof {
            assert(decreases_to!(fields => fields[i as int]));
        }
        let any = TypeRef::Any;
        let fty = match find_field(decl, &fields[i].0) {
            Some(fi) => &decl[fi].ty,
            None => &any,
        };
        assert(*fty == field_type(decl@, fields@[i as int].0@));
        let t = encode_value(s, fty, &fields[i].1);
        let k = RawTree::Str(fields[i].0.clone());
        proof {
            lemma_node_of_str(k);
        }
        let ghost before = out@;
        out.push((k, t));
        assert(out@.drop_last() =~= before);
        let ghost sub = fields@.subrange(0, i + 1);
        let ghost prev = fields@.subrange(0, i as int);
        assert(sub.drop_last() =~= prev);
        assert(sub.last() == fields@[i as int]);
        assert(fields_model(sub) == fields_model(prev).push((fields@[i as int].0@, value_model(fields@[i as int].1))));
        assert(fields_model(sub).drop_last() =~= fields_model(prev));
        i += 1;
    }
    assert(fields@.subrange(0, fields.len() as int) =~= fields@);
    out
}

} // verus!
