use vstd::prelude::*;

use crate::any::{any_of, decode_any, decode_object, object_of};
use crate::error::{copy_strings, strings_view, BindErr, BindError};
use crate::float::{f32_exact, narrow_f64};
use crate::raw::{lemma_node_of_str, lemma_nodes_of, lemma_pairs_of, nodes_of, pairs_of, RawNode, RawTree};
use crate::schema::{elem_type, FieldDef, Schema, TypeRef};
use crate::scope::{extend_spec, generate_id_spec, subscope_of, RegModel, SeedData};
use crate::text::copy_str;
use crate::value::{fields_model, values_model, Value, ValueModel};

verus! {

/// The registry after leaving the innermost scope.
pub open spec fn pop_spec(m: RegModel) -> RegModel {
    RegModel {
        ids: m.ids,
        parents: if m.parents.len() == 0 { m.parents } else { m.parents.drop_last() },
    }
}

/// The registry after entering the sub-scope `name`.
pub open spec fn push_spec(m: RegModel, name: Seq<char>) -> RegModel {
    RegModel { ids: m.ids, parents: m.parents.push(subscope_of(name, m.parent())) }
}

/// The first index of `s` at which `p` holds, if any.
pub open spec fn first_index<A>(s: Seq<A>, p: spec_fn(A) -> bool) -> Option<nat> {
    if exists|i: int| 0 <= i < s.len() && p(s[i]) {
        let i = choose|i: int| 0 <= i < s.len() && p(s[i]) && forall|j: int| 0 <= j < i ==> !p(s[j]);
        Some(i as nat)
    } else {
        None
    }
}

/// A literal equal to `v`.
pub open spec fn is_literal(v: Seq<char>) -> spec_fn(String) -> bool {
    |l: String| l@ == v
}

/// A field named `k`.
pub open spec fn is_named(k: Seq<char>) -> spec_fn(FieldDef) -> bool {
    |f: FieldDef| f.name@ == k
}

/// A field that holds the identifier.
pub open spec fn is_identifier() -> spec_fn(FieldDef) -> bool {
    |f: FieldDef| f.identifier
}

/// An entry whose key is the string `k`.
pub open spec fn has_key_str(k: Seq<char>) -> spec_fn((RawNode, RawNode)) -> bool {
    |e: (RawNode, RawNode)| e.0 == RawNode::Str(k)
}

/// The index of the first literal equal to `v`.
pub open spec fn literal_index(lits: Seq<String>, v: Seq<char>) -> Option<nat> {
    first_index(lits, is_literal(v))
}

/// The index of the first field named `k`.
pub open spec fn field_index(fields: Seq<FieldDef>, k: Seq<char>) -> Option<nat> {
    first_index(fields, is_named(k))
}

/// The index of the first field that holds the identifier.
pub open spec fn id_field(fields: Seq<FieldDef>) -> Option<nat> {
    first_index(fields, is_identifier())
}

/// The index of the first entry whose key is the string `k`.
pub open spec fn entry_index(es: Seq<(RawNode, RawNode)>, k: Seq<char>) -> Option<nat> {
    first_index(es, has_key_str(k))
}

/// `first_index` at an index where `p` holds and held nowhere before.
pub proof fn lemma_first_index_at<A>(s: Seq<A>, p: spec_fn(A) -> bool, i: int)
    requires
        0 <= i < s.len(),
        p(s[i]),
        forall|j: int| 0 <= j < i ==> !p(s[j]),
    ensures
        first_index(s, p) == Some(i as nat),
{
    let k = choose|k: int| 0 <= k < s.len() && p(s[k]) && forall|j: int| 0 <= j < k ==> !p(s[j]);
    assert(0 <= k < s.len() && p(s[k]) && forall|j: int| 0 <= j < k ==> !p(s[j]));
    if k < i {
        assert(!p(s[k]));
    }
    if k > i {
        assert(!p(s[i]));
    }
}

/// An index where `p` holds gives one where it holds first.
proof fn lemma_min_witness<A>(s: Seq<A>, p: spec_fn(A) -> bool, i: int)
    requires
        0 <= i < s.len(),
        p(s[i]),
    ensures
        exists|k: int| 0 <= k < s.len() && p(s[k]) && forall|j: int| 0 <= j < k ==> !p(s[j]),
    decreases i,
{
    if exists|j: int| 0 <= j < i && p(s[j]) {
        let j = choose|j: int| 0 <= j < i && p(s[j]);
        lemma_min_witness(s, p, j);
    } else {
        assert(0 <= i < s.len() && p(s[i]) && forall|j: int| 0 <= j < i ==> !p(s[j]));
    }
}

/// What `first_index` finds: an index where `p` holds, and held nowhere before.
pub proof fn lemma_first_index_some<A>(s: Seq<A>, p: spec_fn(A) -> bool)
    requires
        first_index(s, p) is Some,
    ensures
        first_index(s, p)->Some_0 < s.len(),
        p(s[first_index(s, p)->Some_0 as int]),
        forall|j: int| 0 <= j < first_index(s, p)->Some_0 ==> !p(s[j]),
{
    let i = choose|i: int| 0 <= i < s.len() && p(s[i]);
    lemma_min_witness(s, p, i);
}

/// `first_index` where `p` holds nowhere.
pub proof fn lemma_first_index_none<A>(s: Seq<A>, p: spec_fn(A) -> bool)
    requires
        forall|j: int| 0 <= j < s.len() ==> !p(s[j]),
    ensures
        first_index(s, p) is None,
{
}

/// Whether entry `j` has a key that is no string or repeats an earlier key.
pub open spec fn bad_key(es: Seq<(RawNode, RawNode)>, j: int) -> bool {
    !(es[j].0 is Str) || exists|i: int| 0 <= i < j && es[i].0 == es[j].0
}

/// The error for the first entry whose key is no string or repeats an earlier one.
pub open spec fn key_error(es: Seq<(RawNode, RawNode)>) -> Option<BindErr> {
    if exists|j: int| 0 <= j < es.len() && bad_key(es, j) {
        let j = choose|j: int| 0 <= j < es.len() && bad_key(es, j) && forall|i: int| 0 <= i < j ==> !bad_key(es, i);
        match es[j].0 {
            RawNode::Str(k) => Some(BindErr::DuplicateField { key: k }),
            _ => Some(BindErr::Mismatch),
        }
    } else {
        None
    }
}

/// The string of a key; empty for a key that is no string.
pub open spec fn str_key(k: RawNode) -> Seq<char> {
    match k {
        RawNode::Str(s) => s,
        _ => Seq::empty(),
    }
}

/// The keys of mapping entries, as strings.
pub open spec fn entry_keys(es: Seq<(RawNode, RawNode)>) -> Seq<Seq<char>> {
    es.map_values(|e: (RawNode, RawNode)| str_key(e.0))
}

/// The mapping that a map-or-sequence entry `(ek, ev)` stands for: `ev` with
/// the field `key` set to `ek` when `ev` is a mapping, else `{key: ek, pred: ev}`
/// when a predicate field is named; none otherwise.
pub open spec fn rewrite_entry(key: Seq<char>, pred: Option<Seq<char>>, e: (RawNode, RawNode)) -> Option<RawNode> {
    match e.1 {
        RawNode::Mapping(inner) => Some(RawNode::Mapping(inner.push((RawNode::Str(key), e.0)))),
        _ => match pred {
            Some(p) => Some(RawNode::Mapping(seq![(RawNode::Str(key), e.0), (RawNode::Str(p), e.1)])),
            None => None,
        },
    }
}

/// Binding the tree `n` to the type `ty` from registry state `m`, following at
/// most `fuel` levels of nested decoding: the result and the next state.
pub open spec fn bind_spec(s: Schema, ty: TypeRef, n: RawNode, m: RegModel, fuel: nat) -> (Result<ValueModel, BindErr>, RegModel)
    decreases fuel, 0nat, 0nat,
{
    if fuel == 0 {
        (Err(BindErr::TooDeep), m)
    } else {
        let f = (fuel - 1) as nat;
        match ty {
            TypeRef::Bool => (match n {
                RawNode::Bool(b) => Ok(ValueModel::Bool(b)),
                _ => Err(BindErr::Mismatch),
            }, m),
            TypeRef::Int => (match n {
                RawNode::Int(i) => if i32::MIN <= i <= i32::MAX {
                    Ok(ValueModel::Int(i))
                } else {
                    Err(BindErr::Mismatch)
                },
                _ => Err(BindErr::Mismatch),
            }, m),
            TypeRef::Long => (match n {
                RawNode::Int(i) => Ok(ValueModel::Long(i)),
                _ => Err(BindErr::Mismatch),
            }, m),
            TypeRef::Float => (match n {
                RawNode::Float(d) => match f32_exact(d) {
                    Some(x) => Ok(ValueModel::Float(x)),
                    None => Err(BindErr::Mismatch),
                },
                _ => Err(BindErr::Mismatch),
            }, m),
            TypeRef::Double => (match n {
                RawNode::Float(d) => Ok(ValueModel::Double(d)),
                _ => Err(BindErr::Mismatch),
            }, m),
            TypeRef::Str => (match n {
                RawNode::Str(v) => Ok(ValueModel::Str(v)),
                _ => Err(BindErr::Mismatch),
            }, m),
            TypeRef::Any => (match any_of(n) {
                Ok(a) => Ok(ValueModel::Any(a)),
                Err(e) => Err(e),
            }, m),
            TypeRef::Object => (match n {
                RawNode::Mapping(es) => match object_of(es) {
                    Ok(o) => Ok(ValueModel::Object(o)),
                    Err(e) => Err(e),
                },
                _ => Err(BindErr::Mismatch),
            }, m),
            TypeRef::Enum(e) => (if e < s.enums.len() {
                match n {
                    RawNode::Str(v) => match literal_index(s.enums[e as int].literals@, v) {
                        Some(i) => Ok(ValueModel::Enum(i)),
                        None => Err(BindErr::UnknownLiteral { value: v, accepted: strings_view(s.enums[e as int].literals@) }),
                    },
                    _ => Err(BindErr::Mismatch),
                }
            } else {
                Err(BindErr::Mismatch)
            }, m),
            TypeRef::Record(r) => if r < s.records.len() {
                match n {
                    RawNode::Mapping(es) => bind_record(s, r as int, es, m, f),
                    _ => (Err(BindErr::Mismatch), m),
                }
            } else {
                (Err(BindErr::Mismatch), m)
            },
            TypeRef::Union(u) => if u < s.unions.len() {
                bind_union(s, u as int, n, m, f, 0)
            } else {
                (Err(BindErr::Mismatch), m)
            },
            TypeRef::List(inner) => match n {
                RawNode::Sequence(items) => {
                    let (r, m2) = bind_items(s, *inner, items, m, f);
                    (match r {
                        Ok(vs) => Ok(ValueModel::List(vs)),
                        Err(e) => Err(e),
                    }, m2)
                },
                _ => {
                    let (r, m2) = bind_spec(s, *inner, n, m, f);
                    (match r {
                        Ok(v) => Ok(ValueModel::List(seq![v])),
                        Err(e) => Err(e),
                    }, m2)
                },
            },
        }
    }
}

/// Binding each item in order to `t`; the first failure is the result.
pub open spec fn bind_items(s: Schema, t: TypeRef, items: Seq<RawNode>, m: RegModel, fuel: nat) -> (Result<Seq<ValueModel>, BindErr>, RegModel)
    decreases fuel, 1nat, items.len(),
{
    if items.len() == 0 {
        (Ok(Seq::empty()), m)
    } else {
        let (r0, m0) = bind_items(s, t, items.drop_last(), m, fuel);
        match r0 {
            Err(e) => (Err(e), m0),
            Ok(vs) => {
                let (r1, m1) = bind_spec(s, t, items.last(), m0, fuel);
                (match r1 {
                    Ok(v) => Ok(vs.push(v)),
                    Err(e) => Err(e),
                }, m1)
            },
        }
    }
}

/// Trying the candidates of union `u` from index `i` on: the first that binds
/// against a forked registry wins, and its identifiers are then merged.
pub open spec fn bind_union(s: Schema, u: int, n: RawNode, m: RegModel, fuel: nat, i: nat) -> (Result<ValueModel, BindErr>, RegModel)
    decreases fuel, 1nat, s.unions[u].candidates.len() - i,
{
    let cands = s.unions[u].candidates@;
    if i >= cands.len() {
        (Err(BindErr::NoCandidate { union_name: s.unions[u].name@ }), m)
    } else {
        let (r, forked) = bind_spec(s, cands[i as int], n, m.fork(), fuel);
        match r {
            Ok(v) => {
                let (er, ids) = extend_spec(m.ids, forked.ids);
                let m2 = RegModel { ids, parents: m.parents };
                (match er {
                    Ok(_) => Ok(ValueModel::Variant(i, Box::new(v))),
                    Err(e) => Err(e),
                }, m2)
            },
            Err(_) => bind_union(s, u, n, m, fuel, i + 1),
        }
    }
}

/// Binding the entries of a map-or-sequence mapping in order, each rewritten
/// by [`rewrite_entry`], to `t`.
pub open spec fn bind_map_entries(
    s: Schema,
    t: TypeRef,
    key: Seq<char>,
    pred: Option<Seq<char>>,
    es: Seq<(RawNode, RawNode)>,
    m: RegModel,
    fuel: nat,
) -> (Result<Seq<ValueModel>, BindErr>, RegModel)
    decreases fuel, 1nat, es.len(),
{
    if es.len() == 0 {
        (Ok(Seq::empty()), m)
    } else {
        let (r0, m0) = bind_map_entries(s, t, key, pred, es.drop_last(), m, fuel);
        match r0 {
            Err(e) => (Err(e), m0),
            Ok(vs) => match rewrite_entry(key, pred, es.last()) {
                None => (Err(BindErr::NotAMapping { field: key }), m0),
                Some(node) => {
                    let (r1, m1) = bind_spec(s, t, node, m0, fuel);
                    (match r1 {
                        Ok(v) => Ok(vs.push(v)),
                        Err(e) => Err(e),
                    }, m1)
                },
            },
        }
    }
}

/// Binding the value of a declared field: inside its sub-scope if it names
/// one, as a map-or-sequence list if it names a map key, else to its type.
pub open spec fn bind_field_value(s: Schema, fd: FieldDef, n: RawNode, m: RegModel, fuel: nat) -> (Result<ValueModel, BindErr>, RegModel)
    decreases fuel, 2nat, 0nat,
{
    let m1 = match fd.subscope {
        Some(sc) => push_spec(m, sc@),
        None => m,
    };
    let (r, m2) = match fd.map_key {
        Some(k) => match n {
            RawNode::Sequence(items) => {
                let (r, m2) = bind_items(s, elem_type(fd.ty), items, m1, fuel);
                (match r {
                    Ok(vs) => Ok(ValueModel::List(vs)),
                    Err(e) => Err(e),
                }, m2)
            },
            RawNode::Mapping(es) => {
                let (r, m2) = bind_map_entries(s, elem_type(fd.ty), k@, opt_view(fd.map_predicate), es, m1, fuel);
                (match r {
                    Ok(vs) => Ok(ValueModel::List(vs)),
                    Err(e) => Err(e),
                }, m2)
            },
            _ => (Err(BindErr::Mismatch), m1),
        },
        None => bind_spec(s, fd.ty, n, m1, fuel),
    };
    (r, match fd.subscope {
        Some(_) => pop_spec(m2),
        None => m2,
    })
}

/// Binding the entries of a record's mapping in order: the identifier entry
/// becomes the absolute identifier `abs`, a declared field is bound to its
/// type, any other key is kept as a dynamic value.
pub open spec fn bind_entries(
    s: Schema,
    fields: Seq<FieldDef>,
    id_name: Option<Seq<char>>,
    abs: Seq<char>,
    es: Seq<(RawNode, RawNode)>,
    m: RegModel,
    fuel: nat,
) -> (Result<Seq<(Seq<char>, ValueModel)>, BindErr>, RegModel)
    decreases fuel, 3nat, es.len(),
{
    if es.len() == 0 {
        (Ok(Seq::empty()), m)
    } else {
        let (r0, m0) = bind_entries(s, fields, id_name, abs, es.drop_last(), m, fuel);
        match r0 {
            Err(e) => (Err(e), m0),
            Ok(out) => {
                let k = str_key(es.last().0);
                if id_name == Some(k) {
                    (Ok(out.push((k, ValueModel::Str(abs)))), m0)
                } else {
                    match field_index(fields, k) {
                        Some(fi) => {
                            let (r1, m1) = bind_field_value(s, fields[fi as int], es.last().1, m0, fuel);
                            (match r1 {
                                Ok(v) => Ok(out.push((k, v))),
                                Err(e) => Err(e),
                            }, m1)
                        },
                        None => (match any_of(es.last().1) {
                            Ok(a) => Ok(out.push((k, ValueModel::Any(a)))),
                            Err(e) => Err(e),
                        }, m0),
                    }
                }
            },
        }
    }
}

/// The values of the declared fields absent from `present`, in declared
/// order: each default bound against a forked registry, or the error for a
/// mandatory field without one.
pub open spec fn fill_defaults(s: Schema, fields: Seq<FieldDef>, present: Seq<Seq<char>>, m: RegModel, fuel: nat) -> Result<Seq<(Seq<char>, ValueModel)>, BindErr>
    decreases fuel, 3nat, fields.len(),
{
    if fields.len() == 0 {
        Ok(Seq::empty())
    } else {
        match fill_defaults(s, fields.drop_last(), present, m, fuel) {
            Err(e) => Err(e),
            Ok(acc) => {
                let fd = fields.last();
                if present.contains(fd.name@) {
                    Ok(acc)
                } else {
                    match fd.default {
                        Some(d) => match bind_spec(s, fd.ty, d@, m.fork(), fuel).0 {
                            Ok(v) => Ok(acc.push((fd.name@, v))),
                            Err(_) => Err(BindErr::InvalidDefault { field: fd.name@ }),
                        },
                        None => if fd.optional {
                            Ok(acc)
                        } else {
                            Err(BindErr::MissingField { field: fd.name@ })
                        },
                    }
                }
            },
        }
    }
}

/// A record's entries bound, then its absent fields filled in.
pub open spec fn record_body(
    s: Schema,
    fields: Seq<FieldDef>,
    id_name: Option<Seq<char>>,
    abs: Seq<char>,
    es: Seq<(RawNode, RawNode)>,
    m: RegModel,
    fuel: nat,
) -> (Result<ValueModel, BindErr>, RegModel)
    decreases fuel, 4nat, 0nat,
{
    let (r1, m1) = bind_entries(s, fields, id_name, abs, es, m, fuel);
    match r1 {
        Err(e) => (Err(e), m1),
        Ok(out) => (match fill_defaults(s, fields, entry_keys(es), m1, fuel) {
            Ok(defs) => Ok(ValueModel::Record(out + defs)),
            Err(e) => Err(e),
        }, m1),
    }
}

/// Registering the identifier `raw` of a record, then binding its body in
/// the identifier's scope, which is left whatever the outcome.
pub open spec fn record_with_id(
    s: Schema,
    fields: Seq<FieldDef>,
    name: Seq<char>,
    raw: Seq<char>,
    es: Seq<(RawNode, RawNode)>,
    m: RegModel,
    fuel: nat,
) -> (Result<ValueModel, BindErr>, RegModel)
    decreases fuel, 5nat, 0nat,
{
    let (g, m1) = generate_id_spec(m, raw);
    match g {
        Err(e) => (Err(e), m1),
        Ok(abs) => {
            let (r2, m2) = record_body(s, fields, Some(name), abs, es, m1, fuel);
            (r2, pop_spec(m2))
        },
    }
}

/// Binding a mapping to record `r`: keys are checked first, then the
/// identifier is registered and its scope entered, then the entries are
/// bound; the identifier's scope is left whatever the outcome.
pub open spec fn bind_record(s: Schema, r: int, es: Seq<(RawNode, RawNode)>, m: RegModel, fuel: nat) -> (Result<ValueModel, BindErr>, RegModel)
    decreases fuel, 6nat, 0nat,
{
    let fields = s.records[r].fields@;
    match key_error(es) {
        Some(e) => (Err(e), m),
        None => match id_field(fields) {
            None => record_body(s, fields, None, Seq::empty(), es, m, fuel),
            Some(fi) => match entry_index(es, fields[fi as int].name@) {
                None => record_body(s, fields, None, Seq::empty(), es, m, fuel),
                Some(j) => match es[j as int].1 {
                    RawNode::Str(raw) => record_with_id(s, fields, fields[fi as int].name@, raw, es, m, fuel),
                    _ => (Err(BindErr::Mismatch), m),
                },
            },
        },
    }
}

/// The model of a binding result.
pub open spec fn vres(r: Result<Value, BindError>) -> Result<ValueModel, BindErr> {
    match r {
        Ok(v) => Ok(v@),
        Err(e) => Err(e@),
    }
}

/// Binds `t` to the type `ty`, registering identifiers in `reg`, following at
/// most `fuel` levels of nested decoding.
pub fn bind_value(s: &Schema, ty: &TypeRef, t: &RawTree, reg: &mut SeedData, fuel: u64) -> (r: Result<Value, BindError>)
    requires
        old(reg).wf(),
    ensures
        final(reg).wf(),
        (vres(r), final(reg)@) == bind_spec(*s, *ty, t@, old(reg)@, fuel as nat),
    decreases fuel, 0nat, 0nat,
{
    if fuel == 0 {
        return Err(BindError::TooDeep);
    }
    let f = fuel - 1;
    match ty {
        TypeRef::Bool => match t {
            RawTree::Bool(b) => Ok(Value::Bool(*b)),
            _ => Err(BindError::Mismatch),
        },
        TypeRef::Int => match t {
            RawTree::Int(i) => if i32::MIN as i64 <= *i && *i <= i32::MAX as i64 {
                Ok(Value::Int(*i as i32))
            } else {
                Err(BindError::Mismatch)
            },
            _ => Err(BindError::Mismatch),
        },
        TypeRef::Long => match t {
            RawTree::Int(i) => Ok(Value::Long(*i)),
            _ => Err(BindError::Mismatch),
        },
        TypeRef::Float => match t {
            RawTree::Float(d) => match narrow_f64(*d) {
                Some(x) => Ok(Value::Float(x)),
                None => Err(BindError::Mismatch),
            },
            _ => Err(BindError::Mismatch),
        },
        TypeRef::Double => match t {
            RawTree::Float(d) => Ok(Value::Double(*d)),
            _ => Err(BindError::Mismatch),
        },
        TypeRef::Str => match t {
            RawTree::Str(v) => Ok(Value::Str(v.clone())),
            _ => Err(BindError::Mismatch),
        },
        TypeRef::Any => match decode_any(t) {
            Ok(a) => Ok(Value::Any(a)),
            Err(e) => Err(e),
        },
        TypeRef::Object => match t {
            RawTree::Mapping(es) => match decode_object(es) {
                Ok(o) => Ok(Value::Object(o)),
                Err(e) => Err(e),
            },
            _ => Err(BindError::Mismatch),
        },
        TypeRef::Enum(e) => {
            if *e >= s.enums.len() {
                return Err(BindError::Mismatch);
            }
            match t {
                RawTree::Str(v) => match find_literal(&s.enums[*e].literals, v) {
                    Some(i) => Ok(Value::Enum(i)),
                    None => Err(BindError::UnknownLiteral { value: v.clone(), accepted: copy_strings(&s.enums[*e].literals) }),
                },
                _ => Err(BindError::Mismatch),
            }
        },
        TypeRef::Record(r) => {
            if *r >= s.records.len() {
                return Err(BindError::Mismatch);
            }
            match t {
                RawTree::Mapping(es) => bind_record_exec(s, *r, es, reg, f),
                _ => Err(BindError::Mismatch),
            }
        },
        TypeRef::Union(u) => {
            if *u >= s.unions.len() {
                return Err(BindError::Mismatch);
            }
            bind_union_exec(s, *u, t, reg, f)
        },
        TypeRef::List(inner) => match t {
            RawTree::Sequence(items) => match bind_items_exec(s, inner, items, reg, f) {
                Ok(vs) => Ok(Value::List(vs)),
                Err(e) => Err(e),
            },
            _ => match bind_value(s, inner, t, reg, f) {
                Ok(v) => {
                    let mut vs: Vec<Value> = Vec::new();
                    vs.push(v);
                    assert(vs@.drop_last() =~= Seq::<Value>::empty());
                    assert(values_model(vs@) == values_model(Seq::<Value>::empty()).push(v@));
                    assert(values_model(vs@) =~= seq![v@]);
                    Ok(Value::List(vs))
                },
                Err(e) => Err(e),
            },
        },
    }
}

/// The index of the first literal equal to `v`.
fn find_literal(lits: &Vec<String>, v: &String) -> (r: Option<usize>)
    ensures
        match r {
            Some(i) => literal_index(lits@, v@) == Some(i as nat) && i < lits.len(),
            None => literal_index(lits@, v@) is None,
        },
{
    let mut i: usize = 0;
    while i < lits.len()
        invariant
            i <= lits.len(),
            forall|j: int| 0 <= j < i ==> !is_literal(v@)(lits@[j]),
        decreases lits.len() - i,
    {
        if lits[i] == *v {
            proof {
                lemma_first_index_at(lits@, is_literal(v@), i as int);
            }
            return Some(i);
        }
        i += 1;
    }
    proof {
        lemma_first_index_none(lits@, is_literal(v@));
    }
    None
}

/// A failure on the first `i + 1` items is the failure on them all.
proof fn lemma_items_err(s: Schema, t: TypeRef, items: Seq<RawNode>, m: RegModel, fuel: nat, i: int)
    requires
        0 <= i < items.len(),
        bind_items(s, t, items.subrange(0, i + 1), m, fuel).0 is Err,
    ensures
        bind_items(s, t, items, m, fuel) == bind_items(s, t, items.subrange(0, i + 1), m, fuel),
    decreases items.len() - i,
{
    if i + 1 < items.len() {
        assert(items.subrange(0, i + 2).drop_last() =~= items.subrange(0, i + 1));
        lemma_items_err(s, t, items, m, fuel, i + 1);
    } else {
        assert(items.subrange(0, i + 1) =~= items);
    }
}

/// Binds each item in order to `t`.
#[verifier::loop_isolation(false)]
fn bind_items_exec(s: &Schema, t: &TypeRef, items: &Vec<RawTree>, reg: &mut SeedData, fuel: u64) -> (r: Result<Vec<Value>, BindError>)
    requires
        old(reg).wf(),
    ensures
        final(reg).wf(),
        (match r {
            Ok(vs) => Ok(values_model(vs@)),
            Err(e) => Err(e@),
        }, final(reg)@) == bind_items(*s, *t, nodes_of(items@), old(reg)@, fuel as nat),
    decreases fuel, 1nat, items.len(),
{
    let ghost nodes = nodes_of(items@);
    let ghost m0 = reg@;
    proof {
        lemma_nodes_of(items@);
        assert(nodes.subrange(0, 0) =~= Seq::<RawNode>::empty());
    }
    let mut out: Vec<Value> = Vec::new();
    let mut i: usize = 0;
    while i < items.len()
        invariant
            i <= items.len(),
            reg.wf(),
            bind_items(*s, *t, nodes.subrange(0, i as int), m0, fuel as nat) == (
                Ok::<Seq<ValueModel>, BindErr>(values_model(out@)),
                reg@,
            ),
        decreases items.len() - i,
    {
        assert(nodes.subrange(0, i + 1).drop_last() =~= nodes.subrange(0, i as int));
        match bind_value(s, t, &items[i], reg, fuel) {
            Err(e) => {
                proof {
                    lemma_items_err(*s, *t, nodes, m0, fuel as nat, i as int);
                }
                return Err(e);
            },
            Ok(v) => {
                let ghost before = out@;
                out.push(v);
                assert(out@.drop_last() =~= before);
            },
        }
        i += 1;
    }
    assert(nodes.subrange(0, items.len() as int) =~= nodes);
    Ok(out)
}

/// Tries the candidates of union `u` in order, each against a fork of `reg`.
#[verifier::loop_isolation(false)]
fn bind_union_exec(s: &Schema, u: usize, t: &RawTree, reg: &mut SeedData, fuel: u64) -> (r: Result<Value, BindError>)
    requires
        old(reg).wf(),
        u < s.unions.len(),
    ensures
        final(reg).wf(),
        (vres(r), final(reg)@) == bind_union(*s, u as int, t@, old(reg)@, fuel as nat, 0),
    decreases fuel, 1nat, s.unions[u as int].candidates.len(),
{
    let cands = &s.unions[u].candidates;
    let mut i: usize = 0;
    while i < cands.len()
        invariant
            i <= cands.len(),
            reg.wf(),
            reg@ == old(reg)@,
            bind_union(*s, u as int, t@, reg@, fuel as nat, 0) == bind_union(*s, u as int, t@, reg@, fuel as nat, i as nat),
        decreases cands.len() - i,
    {
        let ghost m = reg@;
        let mut trial = reg.fork();
        match bind_value(s, &cands[i], t, &mut trial, fuel) {
            Ok(v) => {
                let ghost f = trial@;
                let r = reg.extend(trial);
                assert(reg@ == RegModel { ids: extend_spec(m.ids, f.ids).1, parents: m.parents });
                return match r {
                    Ok(()) => Ok(Value::Variant(i, Box::new(v))),
                    Err(e) => Err(e),
                };
            },
            Err(_) => {
                assert(bind_spec(*s, cands@[i as int], t@, m.fork(), fuel as nat).0 is Err);
                assert(bind_union(*s, u as int, t@, m, fuel as nat, i as nat) == bind_union(*s, u as int, t@, m, fuel as nat, (i + 1) as nat));
            },
        }
        i += 1;
    }
    Err(BindError::NoCandidate { union_name: s.unions[u].name.clone() })
}

/// A failure on the first `i + 1` entries is the failure on them all.
proof fn lemma_map_entries_err(
    s: Schema,
    t: TypeRef,
    key: Seq<char>,
    pred: Option<Seq<char>>,
    es: Seq<(RawNode, RawNode)>,
    m: RegModel,
    fuel: nat,
    i: int,
)
    requires
        0 <= i < es.len(),
        bind_map_entries(s, t, key, pred, es.subrange(0, i + 1), m, fuel).0 is Err,
    ensures
        bind_map_entries(s, t, key, pred, es, m, fuel) == bind_map_entries(s, t, key, pred, es.subrange(0, i + 1), m, fuel),
    decreases es.len() - i,
{
    if i + 1 < es.len() {
        assert(es.subrange(0, i + 2).drop_last() =~= es.subrange(0, i + 1));
        lemma_map_entries_err(s, t, key, pred, es, m, fuel, i + 1);
    } else {
        assert(es.subrange(0, i + 1) =~= es);
    }
}

/// A copy of mapping entries, equal to them.
#[verifier::loop_isolation(false)]
fn copy_entries(es: &Vec<(RawTree, RawTree)>) -> (r: Vec<(RawTree, RawTree)>)
    ensures
        pairs_of(r@) == pairs_of(es@),
{
    let mut out: Vec<(RawTree, RawTree)> = Vec::new();
    let mut i: usize = 0;
    proof {
        lemma_pairs_of(es@);
    }
    while i < es.len()
        invariant
            i <= es.len(),
            out.len() == i,
            forall|j: int| 0 <= j < i ==> out[j].0@ == es[j].0@ && out[j].1@ == es[j].1@,
        decreases es.len() - i,
    {
        out.push((es[i].0.deep_copy(), es[i].1.deep_copy()));
        i += 1;
    }
    proof {
        lemma_pairs_of(out@);
    }
    assert(pairs_of(out@) =~= pairs_of(es@));
    out
}

/// The tree that a map-or-sequence entry stands for; see [`rewrite_entry`].
fn rewrite_entry_exec(key: &String, pred: &Option<String>, ek: &RawTree, ev: &RawTree) -> (r: Option<RawTree>)
    ensures
        match r {
            Some(t) => rewrite_entry(key@, opt_view(*pred), (ek@, ev@)) == Some(t@),
            None => rewrite_entry(key@, opt_view(*pred), (ek@, ev@)) is None,
        },
{
    match ev {
        RawTree::Mapping(inner) => {
            let mut es = copy_entries(inner);
            let ghost before = es@;
            let k2 = key.clone();
            let e2 = ek.deep_copy();
            es.push((RawTree::Str(k2), e2));
            assert(es@.drop_last() =~= before);
            assert(pairs_of(es@) == pairs_of(before).push((RawTree::Str(k2)@, e2@)));
            assert(ev@ == RawNode::Mapping(pairs_of(inner@)));
            Some(RawTree::Mapping(es))
        },
        _ => match pred {
            Some(p) => {
                let mut es: Vec<(RawTree, RawTree)> = Vec::new();
                es.push((RawTree::Str(key.clone()), ek.deep_copy()));
                es.push((RawTree::Str(p.clone()), ev.deep_copy()));
                proof {
                    lemma_pairs_of(es@);
                }
                assert(pairs_of(es@) =~= seq![(RawNode::Str(key@), ek@), (RawNode::Str(p@), ev@)]);
                Some(RawTree::Mapping(es))
            },
            None => None,
        },
    }
}

/// The model of an optional string.
pub open spec fn opt_view(o: Option<String>) -> Option<Seq<char>> {
    match o {
        Some(p) => Some(p@),
        None => None,
    }
}

/// Binds the entries of a map-or-sequence mapping, each rewritten, to `t`.
#[verifier::loop_isolation(false)]
fn bind_map_entries_exec(
    s: &Schema,
    t: &TypeRef,
    key: &String,
    pred: &Option<String>,
    es: &Vec<(RawTree, RawTree)>,
    reg: &mut SeedData,
    fuel: u64,
) -> (r: Result<Vec<Value>, BindError>)
    requires
        old(reg).wf(),
    ensures
        final(reg).wf(),
        (match r {
            Ok(vs) => Ok(values_model(vs@)),
            Err(e) => Err(e@),
        }, final(reg)@) == bind_map_entries(*s, *t, key@, opt_view(*pred), pairs_of(es@), old(reg)@, fuel as nat),
    decreases fuel, 1nat, es.len(),
{
    let ghost nodes = pairs_of(es@);
    let ghost m0 = reg@;
    proof {
        lemma_pairs_of(es@);
        assert(nodes.subrange(0, 0) =~= Seq::<(RawNode, RawNode)>::empty());
    }
    let mut out: Vec<Value> = Vec::new();
    let mut i: usize = 0;
    while i < es.len()
        invariant
            i <= es.len(),
            reg.wf(),
            bind_map_entries(*s, *t, key@, opt_view(*pred), nodes.subrange(0, i as int), m0, fuel as nat) == (
                Ok::<Seq<ValueModel>, BindErr>(values_model(out@)),
                reg@,
            ),
        decreases es.len() - i,
    {
        assert(nodes.subrange(0, i + 1).drop_last() =~= nodes.subrange(0, i as int));
        match rewrite_entry_exec(key, pred, &es[i].0, &es[i].1) {
            None => {
                proof {
                    lemma_map_entries_err(*s, *t, key@, opt_view(*pred), nodes, m0, fuel as nat, i as int);
                }
                return Err(BindError::NotAMapping { field: key.clone() });
            },
            Some(node) => match bind_value(s, t, &node, reg, fuel) {
                Err(e) => {
                    proof {
                        lemma_map_entries_err(*s, *t, key@, opt_view(*pred), nodes, m0, fuel as nat, i as int);
                    }
                    return Err(e);
                },
                Ok(v) => {
                    let ghost before = out@;
                    out.push(v);
                    assert(out@.drop_last() =~= before);
                },
            },
        }
        i += 1;
    }
    assert(nodes.subrange(0, es.len() as int) =~= nodes);
    Ok(out)
}

/// Binds the value of a declared field; see [`bind_field_value`].
fn bind_field_exec(s: &Schema, fd: &FieldDef, t: &RawTree, reg: &mut SeedData, fuel: u64) -> (r: Result<Value, BindError>)
    requires
        old(reg).wf(),
    ensures
        final(reg).wf(),
        (vres(r), final(reg)@) == bind_field_value(*s, *fd, t@, old(reg)@, fuel as nat),
    decreases fuel, 2nat, 0nat,
{
    match &fd.subscope {
        Some(sc) => reg.push_subscope(sc.as_str()),
        None => {},
    }
    let r = match &fd.map_key {
        Some(k) => {
            let elem = match &fd.ty {
                TypeRef::List(inner) => &**inner,
                other => other,
            };
            assert(*elem == elem_type(fd.ty));
            match t {
                RawTree::Sequence(items) => match bind_items_exec(s, elem, items, reg, fuel) {
                    Ok(vs) => Ok(Value::List(vs)),
                    Err(e) => Err(e),
                },
                RawTree::Mapping(es) => match bind_map_entries_exec(s, elem, k, &fd.map_predicate, es, reg, fuel) {
                    Ok(vs) => Ok(Value::List(vs)),
                    Err(e) => Err(e),
                },
                _ => Err(BindError::Mismatch),
            }
        },
        None => bind_value(s, &fd.ty, t, reg, fuel),
    };
    match &fd.subscope {
        Some(_) => reg.pop_parent_id(),
        None => {},
    }
    r
}

/// The first entry whose key is no string or repeats an earlier key, as an error.
#[verifier::loop_isolation(false)]
fn check_keys(es: &Vec<(RawTree, RawTree)>) -> (r: Option<BindError>)
    ensures
        match r {
            Some(e) => key_error(pairs_of(es@)) == Some(e@),
            None => key_error(pairs_of(es@)) is None,
        },
{
    let ghost nodes = pairs_of(es@);
    proof {
        lemma_pairs_of(es@);
    }
    let mut j: usize = 0;
    while j < es.len()
        invariant
            j <= es.len(),
            forall|i: int| 0 <= i < j ==> !bad_key(nodes, i),
        decreases es.len() - j,
    {
        match &es[j].0 {
            RawTree::Str(k) => {
                let mut i: usize = 0;
                while i < j
                    invariant
                        i <= j,
                        nodes[j as int].0 == RawNode::Str(k@),
                        forall|l: int| 0 <= l < i ==> nodes[l].0 != nodes[j as int].0,
                    decreases j - i,
                {
                    match &es[i].0 {
                        RawTree::Str(k2) => {
                            if *k2 == *k {
                                assert(bad_key(nodes, j as int));
                                proof {
                                    lemma_key_error_at(nodes, j as int);
                                }
                                return Some(BindError::DuplicateField { key: k.clone() });
                            }
                        },
                        _ => {
                            assert(!(nodes[i as int].0 is Str));
                            assert(bad_key(nodes, i as int));
                        },
                    }
                    i += 1;
                }
                assert(!bad_key(nodes, j as int));
            },
            _ => {
                assert(bad_key(nodes, j as int));
                proof {
                    lemma_key_error_at(nodes, j as int);
                }
                return Some(BindError::Mismatch);
            },
        }
        j += 1;
    }
    None
}

/// `key_error` at the first entry with a bad key.
proof fn lemma_key_error_at(es: Seq<(RawNode, RawNode)>, j: int)
    requires
        0 <= j < es.len(),
        bad_key(es, j),
        forall|i: int| 0 <= i < j ==> !bad_key(es, i),
    ensures
        key_error(es) == match es[j].0 {
            RawNode::Str(k) => Some(BindErr::DuplicateField { key: k }),
            _ => Some(BindErr::Mismatch),
        },
{
    let k = choose|k: int| 0 <= k < es.len() && bad_key(es, k) && forall|i: int| 0 <= i < k ==> !bad_key(es, i);
    assert(0 <= k < es.len() && bad_key(es, k) && forall|i: int| 0 <= i < k ==> !bad_key(es, i));
    if k < j {
        assert(!bad_key(es, k));
    }
    if k > j {
        assert(!bad_key(es, j));
    }
}

/// The index of the first field that holds the identifier.
fn find_id_field(fields: &Vec<FieldDef>) -> (r: Option<usize>)
    ensures
        match r {
            Some(i) => id_field(fields@) == Some(i as nat) && i < fields.len(),
            None => id_field(fields@) is None,
        },
{
    let mut i: usize = 0;
    while i < fields.len()
        invariant
            i <= fields.len(),
            forall|j: int| 0 <= j < i ==> !is_identifier()(fields@[j]),
        decreases fields.len() - i,
    {
        if fields[i].identifier {
            proof {
                lemma_first_index_at(fields@, is_identifier(), i as int);
            }
            return Some(i);
        }
        i += 1;
    }
    proof {
        lemma_first_index_none(fields@, is_identifier());
    }
    None
}

/// The index of the first field named `k`.
pub(crate) fn find_field(fields: &Vec<FieldDef>, k: &String) -> (r: Option<usize>)
    ensures
        match r {
            Some(i) => field_index(fields@, k@) == Some(i as nat) && i < fields.len(),
            None => field_index(fields@, k@) is None,
        },
{
    let mut i: usize = 0;
    while i < fields.len()
        invariant
            i <= fields.len(),
            forall|j: int| 0 <= j < i ==> !is_named(k@)(fields@[j]),
        decreases fields.len() - i,
    {
        if fields[i].name == *k {
            proof {
                lemma_first_index_at(fields@, is_named(k@), i as int);
            }
            return Some(i);
        }
        i += 1;
    }
    proof {
        lemma_first_index_none(fields@, is_named(k@));
    }
    None
}

/// The index of the first entry whose key is the string `k`.
#[verifier::loop_isolation(false)]
fn find_entry(es: &Vec<(RawTree, RawTree)>, k: &String) -> (r: Option<usize>)
    ensures
        match r {
            Some(i) => entry_index(pairs_of(es@), k@) == Some(i as nat) && i < es.len()
                && pairs_of(es@)[i as int].0 == RawNode::Str(k@),
            None => entry_index(pairs_of(es@), k@) is None,
        },
{
    let ghost nodes = pairs_of(es@);
    proof {
        lemma_pairs_of(es@);
    }
    let mut i: usize = 0;
    while i < es.len()
        invariant
            i <= es.len(),
            forall|j: int| 0 <= j < i ==> !has_key_str(k@)(nodes[j]),
        decreases es.len() - i,
    {
        let hit = match &es[i].0 {
            RawTree::Str(k2) => *k2 == *k,
            _ => false,
        };
        if hit {
            proof {
                lemma_first_index_at(nodes, has_key_str(k@), i as int);
            }
            return Some(i);
        }
        i += 1;
    }
    proof {
        lemma_first_index_none(nodes, has_key_str(k@));
    }
    None
}

/// Whether some entry has the string key `k`; every key is a string.
#[verifier::loop_isolation(false)]
fn has_entry(es: &Vec<(RawTree, RawTree)>, k: &String) -> (r: bool)
    requires
        forall|j: int| 0 <= j < es.len() ==> (#[trigger] pairs_of(es@)[j]).0 is Str,
    ensures
        r == entry_keys(pairs_of(es@)).contains(k@),
{
    let ghost nodes = pairs_of(es@);
    proof {
        lemma_pairs_of(es@);
    }
    let mut i: usize = 0;
    while i < es.len()
        invariant
            i <= es.len(),
            forall|j: int| 0 <= j < i ==> entry_keys(nodes)[j] != k@,
        decreases es.len() - i,
    {
        match &es[i].0 {
            RawTree::Str(k2) => {
                if *k2 == *k {
                    assert(entry_keys(nodes)[i as int] == k@);
                    return true;
                }
            },
            _ => {
                assert(nodes[i as int].0 is Str);
            },
        }
        i += 1;
    }
    false
}

/// A failure on the first `i + 1` entries is the failure on them all.
proof fn lemma_entries_err(
    s: Schema,
    fields: Seq<FieldDef>,
    id_name: Option<Seq<char>>,
    abs: Seq<char>,
    es: Seq<(RawNode, RawNode)>,
    m: RegModel,
    fuel: nat,
    i: int,
)
    requires
        0 <= i < es.len(),
        bind_entries(s, fields, id_name, abs, es.subrange(0, i + 1), m, fuel).0 is Err,
    ensures
        bind_entries(s, fields, id_name, abs, es, m, fuel) == bind_entries(s, fields, id_name, abs, es.subrange(0, i + 1), m, fuel),
    decreases es.len() - i,
{
    if i + 1 < es.len() {
        assert(es.subrange(0, i + 2).drop_last() =~= es.subrange(0, i + 1));
        lemma_entries_err(s, fields, id_name, abs, es, m, fuel, i + 1);
    } else {
        assert(es.subrange(0, i + 1) =~= es);
    }
}

/// A failure on the first `i + 1` fields is the failure on them all.
proof fn lemma_defaults_err(s: Schema, fields: Seq<FieldDef>, present: Seq<Seq<char>>, m: RegModel, fuel: nat, i: int)
    requires
        0 <= i < fields.len(),
        fill_defaults(s, fields.subrange(0, i + 1), present, m, fuel) is Err,
    ensures
        fill_defaults(s, fields, present, m, fuel) == fill_defaults(s, fields.subrange(0, i + 1), present, m, fuel),
    decreases fields.len() - i,
{
    if i + 1 < fields.len() {
        assert(fields.subrange(0, i + 2).drop_last() =~= fields.subrange(0, i + 1));
        lemma_defaults_err(s, fields, present, m, fuel, i + 1);
    } else {
        assert(fields.subrange(0, i + 1) =~= fields);
    }
}

/// The model of an optional identifier field name.
pub open spec fn opt_name(o: Option<&String>) -> Option<Seq<char>> {
    match o {
        Some(p) => Some(p@),
        None => None,
    }
}

/// Binds a record's entries in order; see [`bind_entries`].
#[verifier::loop_isolation(false)]
#[verifier::rlimit(100)]
fn bind_entries_exec(
    s: &Schema,
    fields: &Vec<FieldDef>,
    id_name: Option<&String>,
    abs: &String,
    es: &Vec<(RawTree, RawTree)>,
    reg: &mut SeedData,
    fuel: u64,
) -> (r: Result<Vec<(String, Value)>, BindError>)
    requires
        old(reg).wf(),
        forall|j: int| 0 <= j < es.len() ==> (#[trigger] es@[j]).0 is Str,
    ensures
        final(reg).wf(),
        (match r {
            Ok(out) => Ok(fields_model(out@)),
            Err(e) => Err(e@),
        }, final(reg)@) == bind_entries(*s, fields@, opt_name(id_name), abs@, pairs_of(es@), old(reg)@, fuel as nat),
    decreases fuel, 3nat, es.len(),
{
    let ghost nodes = pairs_of(es@);
    let ghost m0 = reg@;
    let ghost idn = opt_name(id_name);
    proof {
        lemma_pairs_of(es@);
        assert(nodes.subrange(0, 0) =~= Seq::<(RawNode, RawNode)>::empty());
    }
    let mut out: Vec<(String, Value)> = Vec::new();
    let mut i: usize = 0;
    while i < es.len()
        invariant
            i <= es.len(),
            reg.wf(),
            bind_entries(*s, fields@, idn, abs@, nodes.subrange(0, i as int), m0, fuel as nat) == (
                Ok::<Seq<(Seq<char>, ValueModel)>, BindErr>(fields_model(out@)),
                reg@,
            ),
        decreases es.len() - i,
    {
        assert(nodes.subrange(0, i + 1).drop_last() =~= nodes.subrange(0, i as int));
        assert(nodes.subrange(0, i + 1).last() == nodes[i as int]);
        assert(es@[i as int].0 is Str);
        let k = match &es[i].0 {
            RawTree::Str(k) => k,
            _ => {
                return Err(BindError::Mismatch);
            },
        };
        proof {
            lemma_node_of_str(es@[i as int].0);
        }
        assert(str_key(nodes[i as int].0) == k@);
        let is_id = match id_name {
            Some(n) => *n == *k,
            None => false,
        };
        assert(is_id == (idn == Some(k@)));
        let ghost before = out@;
        let ghost m_before = reg@;
        if is_id {
            out.push((k.clone(), Value::Str(abs.clone())));
            assert(bind_entries(*s, fields@, idn, abs@, nodes.subrange(0, i + 1), m0, fuel as nat) == (
                Ok::<Seq<(Seq<char>, ValueModel)>, BindErr>(fields_model(before).push((k@, ValueModel::Str(abs@)))),
                reg@,
            ));
        } else {
            match find_field(fields, k) {
                Some(fi) => match bind_field_exec(s, &fields[fi], &es[i].1, reg, fuel) {
                    Ok(v) => {
                        out.push((k.clone(), v));
                        assert(bind_entries(*s, fields@, idn, abs@, nodes.subrange(0, i + 1), m0, fuel as nat) == (
                            Ok::<Seq<(Seq<char>, ValueModel)>, BindErr>(fields_model(before).push((k@, v@))),
                            reg@,
                        ));
                    },
                    Err(e) => {
                        proof {
                            lemma_entries_err(*s, fields@, idn, abs@, nodes, m0, fuel as nat, i as int);
                        }
                        return Err(e);
                    },
                },
                None => match decode_any(&es[i].1) {
                    Ok(a) => {
                        out.push((k.clone(), Value::Any(a)));
                    },
                    Err(e) => {
                        proof {
                            lemma_entries_err(*s, fields@, idn, abs@, nodes, m0, fuel as nat, i as int);
                        }
                        return Err(e);
                    },
                },
            }
        }
        assert(out@.drop_last() =~= before);
        assert(fields_model(out@) == fields_model(before).push((out@.last().0@, out@.last().1@)));
        i += 1;
    }
    assert(nodes.subrange(0, es.len() as int) =~= nodes);
    Ok(out)
}

/// Appends the values of the absent declared fields to `out`; see [`fill_defaults`].
#[verifier::loop_isolation(false)]
fn fill_defaults_exec(
    s: &Schema,
    fields: &Vec<FieldDef>,
    es: &Vec<(RawTree, RawTree)>,
    reg: &SeedData,
    out: &mut Vec<(String, Value)>,
    fuel: u64,
) -> (r: Result<(), BindError>)
    requires
        reg.wf(),
        forall|j: int| 0 <= j < es.len() ==> (#[trigger] pairs_of(es@)[j]).0 is Str,
    ensures
        match r {
            Ok(_) => match fill_defaults(*s, fields@, entry_keys(pairs_of(es@)), reg@, fuel as nat) {
                Ok(defs) => fields_model(final(out)@) == fields_model(old(out)@) + defs,
                Err(_) => false,
            },
            Err(e) => fill_defaults(*s, fields@, entry_keys(pairs_of(es@)), reg@, fuel as nat) == Err::<
                Seq<(Seq<char>, ValueModel)>,
                BindErr,
            >(e@),
        },
    decreases fuel, 3nat, fields.len(),
{
    let ghost present = entry_keys(pairs_of(es@));
    let ghost m1 = reg@;
    let ghost start = fields_model(out@);
    assert(fields@.subrange(0, 0) =~= Seq::<FieldDef>::empty());
    assert(start + Seq::<(Seq<char>, ValueModel)>::empty() =~= start);
    let mut fi: usize = 0;
    while fi < fields.len()
        invariant
            fi <= fields.len(),
            match fill_defaults(*s, fields@.subrange(0, fi as int), present, m1, fuel as nat) {
                Ok(acc) => fields_model(out@) == start + acc,
                Err(_) => false,
            },
        decreases fields.len() - fi,
    {
        assert(fields@.subrange(0, fi + 1).drop_last() =~= fields@.subrange(0, fi as int));
        let ghost acc = fill_defaults(*s, fields@.subrange(0, fi as int), present, m1, fuel as nat)->Ok_0;
        let fd = &fields[fi];
        if !has_entry(es, &fd.name) {
            match &fd.default {
                Some(d) => {
                    let mut scratch = reg.fork();
                    match bind_value(s, &fd.ty, d, &mut scratch, fuel) {
                        Ok(v) => {
                            let ghost before = out@;
                            out.push((fd.name.clone(), v));
                            assert(out@.drop_last() =~= before);
                            assert(start + acc.push((fd.name@, v@)) =~= (start + acc).push((fd.name@, v@)));
                        },
                        Err(_) => {
                            proof {
                                lemma_defaults_err(*s, fields@, present, m1, fuel as nat, fi as int);
                            }
                            return Err(BindError::InvalidDefault { field: fd.name.clone() });
                        },
                    }
                },
                None => {
                    if !fd.optional {
                        proof {
                            lemma_defaults_err(*s, fields@, present, m1, fuel as nat, fi as int);
                        }
                        return Err(BindError::MissingField { field: fd.name.clone() });
                    }
                },
            }
        }
        fi += 1;
    }
    assert(fields@.subrange(0, fields.len() as int) =~= fields@);
    Ok(())
}

/// Binds a record's entries, then fills in its absent fields; see [`record_body`].
#[verifier::rlimit(100)]
fn record_body_exec(
    s: &Schema,
    fields: &Vec<FieldDef>,
    id_name: Option<&String>,
    abs: &String,
    es: &Vec<(RawTree, RawTree)>,
    reg: &mut SeedData,
    fuel: u64,
) -> (r: Result<Value, BindError>)
    requires
        old(reg).wf(),
        key_error(pairs_of(es@)) is None,
    ensures
        final(reg).wf(),
        (vres(r), final(reg)@) == record_body(*s, fields@, opt_name(id_name), abs@, pairs_of(es@), old(reg)@, fuel as nat),
    decreases fuel, 4nat, 0nat,
{
    let ghost nodes = pairs_of(es@);
    proof {
        lemma_pairs_of(es@);
        assert forall|j: int| 0 <= j < es.len() implies (#[trigger] es@[j]).0 is Str by {
            lemma_node_of_str(es@[j].0);
            if !(nodes[j].0 is Str) {
                assert(bad_key(nodes, j));
            }
        }
        assert forall|j: int| 0 <= j < es.len() implies (#[trigger] pairs_of(es@)[j]).0 is Str by {
            if !(nodes[j].0 is Str) {
                assert(bad_key(nodes, j));
            }
        }
    }
    let mut out = match bind_entries_exec(s, fields, id_name, abs, es, reg, fuel) {
        Ok(out) => out,
        Err(e) => {
            return Err(e);
        },
    };
    match fill_defaults_exec(s, fields, es, reg, &mut out, fuel) {
        Ok(()) => Ok(Value::Record(out)),
        Err(e) => Err(e),
    }
}

/// Registers a record's identifier, binds its body, leaves the scope; see [`record_with_id`].
fn record_with_id_exec(
    s: &Schema,
    fields: &Vec<FieldDef>,
    name: &String,
    raw: &String,
    es: &Vec<(RawTree, RawTree)>,
    reg: &mut SeedData,
    fuel: u64,
) -> (r: Result<Value, BindError>)
    requires
        old(reg).wf(),
        key_error(pairs_of(es@)) is None,
    ensures
        final(reg).wf(),
        (vres(r), final(reg)@) == record_with_id(*s, fields@, name@, raw@, pairs_of(es@), old(reg)@, fuel as nat),
    decreases fuel, 5nat, 0nat,
{
    match reg.generate_id(raw.as_str()) {
        Err(e) => Err(e),
        Ok(abs) => {
            let body = record_body_exec(s, fields, Some(name), &abs, es, reg, fuel);
            reg.pop_parent_id();
            body
        },
    }
}

/// Binds a mapping to record `r`; see [`bind_record`].
fn bind_record_exec(s: &Schema, r: usize, es: &Vec<(RawTree, RawTree)>, reg: &mut SeedData, fuel: u64) -> (res: Result<Value, BindError>)
    requires
        old(reg).wf(),
        r < s.records.len(),
    ensures
        final(reg).wf(),
        (vres(res), final(reg)@) == bind_record(*s, r as int, pairs_of(es@), old(reg)@, fuel as nat),
    decreases fuel, 6nat, 0nat,
{
    let ghost nodes = pairs_of(es@);
    proof {
        lemma_pairs_of(es@);
    }
    let fields = &s.records[r].fields;
    match check_keys(es) {
        Some(e) => {
            return Err(e);
        },
        None => {},
    }
    let empty = String::new();
    match find_id_field(fields) {
        None => record_body_exec(s, fields, None, &empty, es, reg, fuel),
        Some(fi) => match find_entry(es, &fields[fi].name) {
            None => record_body_exec(s, fields, None, &empty, es, reg, fuel),
            Some(j) => match &es[j].1 {
                RawTree::Str(raw) => {
                    proof {
                        lemma_node_of_str(es@[j as int].1);
                    }
                    record_with_id_exec(s, fields, &fields[fi].name, raw, es, reg, fuel)
                },
                _ => {
                    proof {
                        lemma_node_of_str(es@[j as int].1);
                    }
                    Err(BindError::Mismatch)
                },
            },
        },
    }
}

} // verus!
verus! {

/// How many levels of nested decoding a document may need: each record,
/// union, list and list element below the root is one level.
pub const MAX_DEPTH: u64 = 512;

/// Binding a whole document: a fresh registry, at most [`MAX_DEPTH`] levels.
pub open spec fn document_spec(s: Schema, ty: TypeRef, n: RawNode) -> Result<ValueModel, BindErr> {
    bind_spec(s, ty, n, RegModel::empty(), MAX_DEPTH as nat).0
}

/// Binds a whole document to `ty`, with a registry of its own.
pub fn bind_document(s: &Schema, ty: &TypeRef, t: &RawTree) -> (r: Result<Value, BindError>)
    ensures
        vres(r) == document_spec(*s, *ty, t@),
{
    let mut reg = SeedData::new();
    bind_value(s, ty, t, &mut reg, MAX_DEPTH)
}

} // verus!
verus! {

/// Binding a map-or-sequence list: a sequence element by element, a mapping
/// entry by entry after [`rewrite_entry`]; any other tree fails.
pub open spec fn keyed_list(
    s: Schema,
    t: TypeRef,
    key: Seq<char>,
    pred: Option<Seq<char>>,
    n: RawNode,
    m: RegModel,
    fuel: nat,
) -> (Result<Seq<ValueModel>, BindErr>, RegModel) {
    match n {
        RawNode::Sequence(items) => bind_items(s, t, items, m, fuel),
        RawNode::Mapping(es) => bind_map_entries(s, t, key, pred, es, m, fuel),
        _ => (Err(BindErr::Mismatch), m),
    }
}

/// Reads a list given either as a sequence of records or as a mapping whose
/// keys go into the field `key` of each record.
pub struct MapDeserializeSeed {
    pub key: String,
    /// The field that receives an entry's value when that value is no mapping.
    pub pred: Option<String>,
}

/// The map-or-sequence reader under the name the record binder uses.
pub type MapOrSeqDeserializeSeed = MapDeserializeSeed;

impl MapDeserializeSeed {
    /// A reader that puts each entry's key into `key`, and a scalar entry value into `pred`.
    pub fn new(key: &str, pred: Option<&str>) -> (r: MapDeserializeSeed)
        ensures
            r.key@ == key@,
            opt_view(r.pred) == match pred {
                Some(p) => Some(p@),
                None => None::<Seq<char>>,
            },
    {
        MapDeserializeSeed {
            key: copy_str(key),
            pred: match pred {
                Some(p) => Some(copy_str(p)),
                None => None,
            },
        }
    }

    /// Binds `t` as a list of `elem`; see [`keyed_list`].
    pub fn deserialize(&self, s: &Schema, elem: &TypeRef, t: &RawTree, reg: &mut SeedData) -> (r: Result<Vec<Value>, BindError>)
        requires
            old(reg).wf(),
        ensures
            final(reg).wf(),
            (match r {
                Ok(vs) => Ok(values_model(vs@)),
                Err(e) => Err(e@),
            }, final(reg)@) == keyed_list(*s, *elem, self.key@, opt_view(self.pred), t@, old(reg)@, MAX_DEPTH as nat),
    {
        match t {
            RawTree::Sequence(items) => bind_items_exec(s, elem, items, reg, MAX_DEPTH),
            RawTree::Mapping(es) => bind_map_entries_exec(s, elem, &self.key, &self.pred, es, reg, MAX_DEPTH),
            _ => Err(BindError::Mismatch),
        }
    }
}

} // verus!
