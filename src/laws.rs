use vstd::prelude::*;

use crate::any::{any_items, any_of, object_of, raw_entries, raw_list, raw_of, AnyModel};
use crate::bind::{
    bind_entries, bind_field_value, bind_items, bind_map_entries, bind_record, bind_spec,
    bind_union, document_spec, entry_keys, fill_defaults, id_field, is_identifier, is_literal,
    lemma_first_index_none, lemma_first_index_some, pop_spec, push_spec, record_body,
    rewrite_entry,
};
use crate::error::BindErr;
use crate::encode::{encode, encode_items};
use crate::float::{f32_exact, lemma_widen_of_narrow};
use crate::raw::RawNode;
use crate::schema::{elem_type, FieldDef, Schema, TypeRef};
use crate::scope::{extend_spec, generate_id_spec, RegModel};
use crate::value::ValueModel;

verus! {

/// Binding a document depends on nothing but the schema, the type and the
/// tree: two documents with equal trees bind to equal results.
pub proof fn law_binding_is_pure(s: Schema, ty: TypeRef, a: RawNode, b: RawNode)
    requires
        a == b,
    ensures
        document_spec(s, ty, a) == document_spec(s, ty, b),
{
}

/// A list given as a sequence binds each element in order, unchanged: the
/// one-or-many reading does no reshaping.
pub proof fn law_one_or_many_sequence(s: Schema, t: TypeRef, items: Seq<RawNode>, m: RegModel, fuel: nat)
    requires
        fuel > 0,
    ensures
        bind_spec(s, TypeRef::List(Box::new(t)), RawNode::Sequence(items), m, fuel) == ({
            let (r, m2) = bind_items(s, t, items, m, (fuel - 1) as nat);
            (match r {
                Ok(vs) => Ok(ValueModel::List(vs)),
                Err(e) => Err::<ValueModel, BindErr>(e),
            }, m2)
        }),
{
}

/// A map-or-sequence field given as a sequence binds each element in order,
/// unchanged, to the element type.
pub proof fn law_map_or_seq_sequence(s: Schema, fd: FieldDef, items: Seq<RawNode>, m: RegModel, fuel: nat)
    requires
        fd.map_key is Some,
        fd.subscope is None,
    ensures
        bind_field_value(s, fd, RawNode::Sequence(items), m, fuel) == ({
            let (r, m2) = bind_items(s, elem_type(fd.ty), items, m, fuel);
            (match r {
                Ok(vs) => Ok(ValueModel::List(vs)),
                Err(e) => Err::<ValueModel, BindErr>(e),
            }, m2)
        }),
{
}

/// The entries of a map-or-sequence mapping, each rewritten into the record
/// it stands for.
pub open spec fn expanded(key: Seq<char>, pred: Option<Seq<char>>, es: Seq<(RawNode, RawNode)>) -> Seq<RawNode> {
    es.map_values(|e: (RawNode, RawNode)| rewrite_entry(key, pred, e)->Some_0)
}

/// A map-or-sequence mapping binds exactly as the sequence of the records its
/// entries stand for, in entry order.
pub proof fn law_map_form_is_sequence_form(
    s: Schema,
    t: TypeRef,
    key: Seq<char>,
    pred: Option<Seq<char>>,
    es: Seq<(RawNode, RawNode)>,
    m: RegModel,
    fuel: nat,
)
    requires
        forall|i: int| 0 <= i < es.len() ==> rewrite_entry(key, pred, #[trigger] es[i]) is Some,
    ensures
        bind_map_entries(s, t, key, pred, es, m, fuel) == bind_items(s, t, expanded(key, pred, es), m, fuel),
    decreases es.len(),
{
    if es.len() > 0 {
        law_map_form_is_sequence_form(s, t, key, pred, es.drop_last(), m, fuel);
        assert(expanded(key, pred, es).drop_last() =~= expanded(key, pred, es.drop_last()));
        assert(rewrite_entry(key, pred, es[es.len() - 1]) is Some);
    }
}

/// Registering the same raw identifier twice in one scope fails the second
/// time, naming the absolute identifier.
pub proof fn law_duplicate_id_in_scope(m: RegModel, raw: Seq<char>)
    requires
        generate_id_spec(m, raw).0 is Ok,
    ensures
        generate_id_spec(pop_spec(generate_id_spec(m, raw).1), raw).0 == Err::<Seq<char>, BindErr>(
            BindErr::DuplicateId { id: generate_id_spec(m, raw).0->Ok_0 },
        ),
{
    let m1 = generate_id_spec(m, raw).1;
    assert(pop_spec(m1).parents =~= m.parents);
    assert(pop_spec(m1).ids.last() == generate_id_spec(m, raw).0->Ok_0);
}

/// The first candidate of a union that binds is the one chosen, whatever
/// later candidates would do; its identifiers are then merged into the
/// registry, and no identifier of an earlier, failed candidate is.
pub proof fn law_first_candidate_wins(s: Schema, u: int, n: RawNode, m: RegModel, fuel: nat, i: nat)
    requires
        0 <= u < s.unions.len(),
        i < s.unions[u].candidates.len(),
        bind_spec(s, s.unions[u].candidates@[i as int], n, m.fork(), fuel).0 is Ok,
        forall|j: int| 0 <= j < i ==> (#[trigger] bind_spec(s, s.unions[u].candidates@[j], n, m.fork(), fuel)).0 is Err,
    ensures
        ({
            let (r, forked) = bind_spec(s, s.unions[u].candidates@[i as int], n, m.fork(), fuel);
            let (er, ids) = extend_spec(m.ids, forked.ids);
            bind_union(s, u, n, m, fuel, 0) == (match er {
                Ok(_) => Ok(ValueModel::Variant(i, Box::new(r->Ok_0))),
                Err(e) => Err::<ValueModel, BindErr>(e),
            }, RegModel { ids, parents: m.parents })
        }),
{
    lemma_union_skips(s, u, n, m, fuel, 0, i);
}

/// Failed candidates before `i` are skipped.
proof fn lemma_union_skips(s: Schema, u: int, n: RawNode, m: RegModel, fuel: nat, k: nat, i: nat)
    requires
        0 <= u < s.unions.len(),
        k <= i < s.unions[u].candidates.len(),
        forall|j: int| 0 <= j < i ==> (#[trigger] bind_spec(s, s.unions[u].candidates@[j], n, m.fork(), fuel)).0 is Err,
    ensures
        bind_union(s, u, n, m, fuel, k) == bind_union(s, u, n, m, fuel, i),
    decreases i - k,
{
    if k < i {
        assert(bind_spec(s, s.unions[u].candidates@[k as int], n, m.fork(), fuel).0 is Err);
        lemma_union_skips(s, u, n, m, fuel, k + 1, i);
    }
}

/// A dynamic value decoded from a tree, written back as a tree and decoded
/// again, is the same value.
pub proof fn law_any_round_trip(n: RawNode)
    requires
        any_of(n) is Ok,
    ensures
        any_of(raw_of(any_of(n)->Ok_0)) == any_of(n),
    decreases n,
{
    match n {
        RawNode::Float(d) => {
            if f32_exact(d) is Some {
                lemma_widen_of_narrow(d);
            }
        },
        RawNode::Sequence(items) => {
            lemma_items_round_trip(items);
        },
        RawNode::Mapping(es) => {
            lemma_object_round_trip(es);
        },
        _ => {},
    }
}

/// The round trip of each item of a list.
proof fn lemma_items_round_trip(items: Seq<RawNode>)
    requires
        any_items(items) is Ok,
    ensures
        any_items(raw_list(any_items(items)->Ok_0)) == any_items(items),
    decreases items,
{
    if items.len() > 0 {
        lemma_items_round_trip(items.drop_last());
        law_any_round_trip(items.last());
        let vs = any_items(items.drop_last())->Ok_0;
        let v = any_of(items.last())->Ok_0;
        assert(any_items(items)->Ok_0 == vs.push(v));
        assert(vs.push(v).drop_last() =~= vs);
        assert(raw_list(vs.push(v)) == raw_list(vs).push(raw_of(v)));
        assert(raw_list(vs.push(v)).drop_last() =~= raw_list(vs));
    } else {
        assert(raw_list(Seq::<AnyModel>::empty()) =~= Seq::<RawNode>::empty());
    }
}

/// The round trip of each entry of an object.
proof fn lemma_object_round_trip(es: Seq<(RawNode, RawNode)>)
    requires
        object_of(es) is Ok,
    ensures
        object_of(raw_entries(object_of(es)->Ok_0)) == object_of(es),
    decreases es,
{
    if es.len() > 0 {
        lemma_object_round_trip(es.drop_last());
        law_any_round_trip(es.last().1);
        let o = object_of(es.drop_last())->Ok_0;
        let k = es.last().0->Str_0;
        let v = any_of(es.last().1)->Ok_0;
        assert(object_of(es)->Ok_0 == o.push((k, v)));
        assert(o.push((k, v)).drop_last() =~= o);
        assert(raw_entries(o.push((k, v))) == raw_entries(o).push((RawNode::Str(k), raw_of(v))));
        assert(raw_entries(o.push((k, v))).drop_last() =~= raw_entries(o));
    } else {
        assert(raw_entries(Seq::<(Seq<char>, AnyModel)>::empty()) =~= Seq::<(RawNode, RawNode)>::empty());
    }
}

/// No record of the schema has an identifier field.
pub open spec fn no_identifiers(s: Schema) -> bool {
    forall|r: int, i: int|
        0 <= r < s.records.len() && 0 <= i < s.records[r].fields.len() ==> !(#[trigger] s.records[r].fields@[i]).identifier
}

/// For a schema without identifier fields, what a tree binds to does not
/// depend on the registry it is bound with: no state of an earlier or an
/// enclosing decode can change it.
pub proof fn law_binding_without_identifiers(s: Schema, ty: TypeRef, n: RawNode, m1: RegModel, m2: RegModel, fuel: nat)
    requires
        no_identifiers(s),
    ensures
        bind_spec(s, ty, n, m1, fuel).0 == bind_spec(s, ty, n, m2, fuel).0,
{
    lemma_spec_indep(s, ty, n, m1, m2, fuel);
}

#[verifier::rlimit(100)]
proof fn lemma_spec_indep(s: Schema, ty: TypeRef, n: RawNode, m1: RegModel, m2: RegModel, fuel: nat)
    requires
        no_identifiers(s),
    ensures
        bind_spec(s, ty, n, m1, fuel).0 == bind_spec(s, ty, n, m2, fuel).0,
        bind_spec(s, ty, n, m1, fuel).1.ids == m1.ids,
    decreases fuel, 0nat, 0nat,
{
    if fuel > 0 {
        let f = (fuel - 1) as nat;
        match ty {
            TypeRef::Record(r) => {
                if r < s.records.len() {
                    match n {
                        RawNode::Mapping(es) => lemma_record_indep(s, r as int, es, m1, m2, f),
                        _ => {},
                    }
                }
            },
            TypeRef::Union(u) => {
                if u < s.unions.len() {
                    lemma_union_indep(s, u as int, n, m1, m2, f, 0);
                }
            },
            TypeRef::List(inner) => match n {
                RawNode::Sequence(items) => lemma_items_indep(s, *inner, items, m1, m2, f),
                _ => lemma_spec_indep(s, *inner, n, m1, m2, f),
            },
            _ => {},
        }
    }
}

proof fn lemma_items_indep(s: Schema, t: TypeRef, items: Seq<RawNode>, m1: RegModel, m2: RegModel, fuel: nat)
    requires
        no_identifiers(s),
    ensures
        bind_items(s, t, items, m1, fuel).0 == bind_items(s, t, items, m2, fuel).0,
        bind_items(s, t, items, m1, fuel).1.ids == m1.ids,
    decreases fuel, 1nat, items.len(),
{
    if items.len() > 0 {
        lemma_items_indep(s, t, items.drop_last(), m1, m2, fuel);
        let a = bind_items(s, t, items.drop_last(), m1, fuel);
        let b = bind_items(s, t, items.drop_last(), m2, fuel);
        if a.0 is Ok {
            lemma_spec_indep(s, t, items.last(), a.1, b.1, fuel);
        }
    }
}

proof fn lemma_union_indep(s: Schema, u: int, n: RawNode, m1: RegModel, m2: RegModel, fuel: nat, i: nat)
    requires
        no_identifiers(s),
        0 <= u < s.unions.len(),
    ensures
        bind_union(s, u, n, m1, fuel, i).0 == bind_union(s, u, n, m2, fuel, i).0,
        bind_union(s, u, n, m1, fuel, i).1.ids == m1.ids,
    decreases fuel, 1nat, s.unions[u].candidates.len() - i,
{
    let cands = s.unions[u].candidates@;
    if i < cands.len() {
        lemma_spec_indep(s, cands[i as int], n, m1.fork(), m2.fork(), fuel);
        let a = bind_spec(s, cands[i as int], n, m1.fork(), fuel);
        if a.0 is Ok {
            assert(a.1.ids == Seq::<Seq<char>>::empty());
            assert(extend_spec(m1.ids, a.1.ids) == (Ok::<(), BindErr>(()), m1.ids));
            lemma_spec_indep(s, cands[i as int], n, m2.fork(), m1.fork(), fuel);
            assert(extend_spec(m2.ids, bind_spec(s, cands[i as int], n, m2.fork(), fuel).1.ids) == (
                Ok::<(), BindErr>(()),
                m2.ids,
            ));
        } else {
            lemma_union_indep(s, u, n, m1, m2, fuel, i + 1);
        }
    }
}

proof fn lemma_map_entries_indep(
    s: Schema,
    t: TypeRef,
    key: Seq<char>,
    pred: Option<Seq<char>>,
    es: Seq<(RawNode, RawNode)>,
    m1: RegModel,
    m2: RegModel,
    fuel: nat,
)
    requires
        no_identifiers(s),
    ensures
        bind_map_entries(s, t, key, pred, es, m1, fuel).0 == bind_map_entries(s, t, key, pred, es, m2, fuel).0,
        bind_map_entries(s, t, key, pred, es, m1, fuel).1.ids == m1.ids,
    decreases fuel, 1nat, es.len(),
{
    if es.len() > 0 {
        lemma_map_entries_indep(s, t, key, pred, es.drop_last(), m1, m2, fuel);
        let a = bind_map_entries(s, t, key, pred, es.drop_last(), m1, fuel);
        let b = bind_map_entries(s, t, key, pred, es.drop_last(), m2, fuel);
        if a.0 is Ok {
            match rewrite_entry(key, pred, es.last()) {
                Some(node) => lemma_spec_indep(s, t, node, a.1, b.1, fuel),
                None => {},
            }
        }
    }
}

proof fn lemma_field_indep(s: Schema, fd: FieldDef, n: RawNode, m1: RegModel, m2: RegModel, fuel: nat)
    requires
        no_identifiers(s),
    ensures
        bind_field_value(s, fd, n, m1, fuel).0 == bind_field_value(s, fd, n, m2, fuel).0,
        bind_field_value(s, fd, n, m1, fuel).1.ids == m1.ids,
    decreases fuel, 2nat, 0nat,
{
    let a1 = match fd.subscope {
        Some(sc) => push_spec(m1, sc@),
        None => m1,
    };
    let a2 = match fd.subscope {
        Some(sc) => push_spec(m2, sc@),
        None => m2,
    };
    match fd.map_key {
        Some(k) => match n {
            RawNode::Sequence(items) => lemma_items_indep(s, elem_type(fd.ty), items, a1, a2, fuel),
            RawNode::Mapping(es) => lemma_map_entries_indep(
                s,
                elem_type(fd.ty),
                k@,
                crate::bind::opt_view(fd.map_predicate),
                es,
                a1,
                a2,
                fuel,
            ),
            _ => {},
        },
        None => lemma_spec_indep(s, fd.ty, n, a1, a2, fuel),
    }
}

proof fn lemma_entries_indep(
    s: Schema,
    fields: Seq<FieldDef>,
    id_name: Option<Seq<char>>,
    abs: Seq<char>,
    es: Seq<(RawNode, RawNode)>,
    m1: RegModel,
    m2: RegModel,
    fuel: nat,
)
    requires
        no_identifiers(s),
    ensures
        bind_entries(s, fields, id_name, abs, es, m1, fuel).0 == bind_entries(s, fields, id_name, abs, es, m2, fuel).0,
        bind_entries(s, fields, id_name, abs, es, m1, fuel).1.ids == m1.ids,
    decreases fuel, 3nat, es.len(),
{
    if es.len() > 0 {
        lemma_entries_indep(s, fields, id_name, abs, es.drop_last(), m1, m2, fuel);
        let a = bind_entries(s, fields, id_name, abs, es.drop_last(), m1, fuel);
        let b = bind_entries(s, fields, id_name, abs, es.drop_last(), m2, fuel);
        if a.0 is Ok {
            let k = crate::bind::str_key(es.last().0);
            if id_name != Some(k) {
                match crate::bind::field_index(fields, k) {
                    Some(fi) => lemma_field_indep(s, fields[fi as int], es.last().1, a.1, b.1, fuel),
                    None => {},
                }
            }
        }
    }
}

proof fn lemma_defaults_indep(s: Schema, fields: Seq<FieldDef>, present: Seq<Seq<char>>, m1: RegModel, m2: RegModel, fuel: nat)
    requires
        no_identifiers(s),
    ensures
        fill_defaults(s, fields, present, m1, fuel) == fill_defaults(s, fields, present, m2, fuel),
    decreases fuel, 3nat, fields.len(),
{
    if fields.len() > 0 {
        lemma_defaults_indep(s, fields.drop_last(), present, m1, m2, fuel);
        let fd = fields.last();
        match fd.default {
            Some(d) => lemma_spec_indep(s, fd.ty, d@, m1.fork(), m2.fork(), fuel),
            None => {},
        }
    }
}

proof fn lemma_body_indep(
    s: Schema,
    fields: Seq<FieldDef>,
    id_name: Option<Seq<char>>,
    abs: Seq<char>,
    es: Seq<(RawNode, RawNode)>,
    m1: RegModel,
    m2: RegModel,
    fuel: nat,
)
    requires
        no_identifiers(s),
    ensures
        record_body(s, fields, id_name, abs, es, m1, fuel).0 == record_body(s, fields, id_name, abs, es, m2, fuel).0,
        record_body(s, fields, id_name, abs, es, m1, fuel).1.ids == m1.ids,
    decreases fuel, 4nat, 0nat,
{
    lemma_entries_indep(s, fields, id_name, abs, es, m1, m2, fuel);
    let a = bind_entries(s, fields, id_name, abs, es, m1, fuel);
    let b = bind_entries(s, fields, id_name, abs, es, m2, fuel);
    lemma_defaults_indep(s, fields, entry_keys(es), a.1, b.1, fuel);
}

proof fn lemma_record_indep(s: Schema, r: int, es: Seq<(RawNode, RawNode)>, m1: RegModel, m2: RegModel, fuel: nat)
    requires
        no_identifiers(s),
        0 <= r < s.records.len(),
    ensures
        bind_record(s, r, es, m1, fuel).0 == bind_record(s, r, es, m2, fuel).0,
        bind_record(s, r, es, m1, fuel).1.ids == m1.ids,
    decreases fuel, 6nat, 0nat,
{
    let fields = s.records[r].fields@;
    assert forall|j: int| 0 <= j < fields.len() implies !is_identifier()(#[trigger] fields[j]) by {
        assert(!s.records[r].fields@[j].identifier);
    }
    lemma_first_index_none(fields, is_identifier());
    assert(id_field(fields) is None);
    lemma_body_indep(s, fields, None, Seq::empty(), es, m1, m2, fuel);
}

/// Whether `ty` is a scalar, enumeration, dynamic or object type.
pub open spec fn is_leaf_type(ty: TypeRef) -> bool {
    ty is Bool || ty is Int || ty is Long || ty is Float || ty is Double || ty is Str || ty is Enum || ty is Any
        || ty is Object
}

/// A value of a scalar, enumeration, dynamic or object type, written back as
/// a tree and bound again to its type, is the same value; binding it changes
/// no registry.
#[verifier::rlimit(100)]
pub proof fn law_leaf_round_trip(s: Schema, ty: TypeRef, n: RawNode, m: RegModel, m2: RegModel, fuel: nat)
    requires
        is_leaf_type(ty),
        bind_spec(s, ty, n, m, fuel).0 is Ok,
    ensures
        bind_spec(s, ty, encode(s, ty, bind_spec(s, ty, n, m, fuel).0->Ok_0), m2, fuel).0 == bind_spec(s, ty, n, m, fuel).0,
        bind_spec(s, ty, n, m, fuel).1 == m,
{
    match n {
        RawNode::Float(d) => {
            if f32_exact(d) is Some {
                lemma_widen_of_narrow(d);
            }
            if ty is Any {
                law_any_round_trip(n);
            }
        },
        RawNode::Str(v) => {
            if ty is Enum {
                let lits = s.enums[ty->Enum_0 as int].literals@;
                lemma_first_index_some(lits, is_literal(v));
            }
        },
        RawNode::Mapping(es) => {
            if ty is Any {
                law_any_round_trip(n);
            } else if ty is Object {
                lemma_object_round_trip(es);
            }
        },
        _ => {
            if ty is Any {
                law_any_round_trip(n);
            }
        },
    }
}

/// A list of values of a scalar, enumeration, dynamic or object type, written
/// back as a sequence and bound again, is the same list.
pub proof fn law_leaf_list_round_trip(s: Schema, t: TypeRef, n: RawNode, m: RegModel, fuel: nat)
    requires
        is_leaf_type(t),
        fuel > 0,
        bind_spec(s, TypeRef::List(Box::new(t)), n, m, fuel).0 is Ok,
    ensures
        bind_spec(
            s,
            TypeRef::List(Box::new(t)),
            encode(s, TypeRef::List(Box::new(t)), bind_spec(s, TypeRef::List(Box::new(t)), n, m, fuel).0->Ok_0),
            m,
            fuel,
        ).0 == bind_spec(s, TypeRef::List(Box::new(t)), n, m, fuel).0,
{
    let f = (fuel - 1) as nat;
    let lt = TypeRef::List(Box::new(t));
    assert(elem_type(lt) == t);
    match n {
        RawNode::Sequence(items) => {
            lemma_leaf_items_round_trip(s, t, items, m, f);
        },
        _ => {
            law_leaf_round_trip(s, t, n, m, m, f);
            let v = bind_spec(s, t, n, m, f).0->Ok_0;
            assert(encode_items(s, t, seq![v]) == encode_items(s, t, Seq::<ValueModel>::empty()).push(encode(s, t, v))) by {
                assert(seq![v].drop_last() =~= Seq::<ValueModel>::empty());
            }
            let enc = seq![encode(s, t, v)];
            assert(encode_items(s, t, seq![v]) =~= enc);
            assert(enc.drop_last() =~= Seq::<RawNode>::empty());
            assert(enc.last() == encode(s, t, v));
            law_leaf_round_trip(s, t, n, m, m, f);
            lemma_leaf_keeps_registry(s, t, encode(s, t, v), m, f);
            assert(bind_items(s, t, Seq::<RawNode>::empty(), m, f) == (Ok::<Seq<ValueModel>, BindErr>(Seq::<ValueModel>::empty()), m));
            assert(bind_items(s, t, enc.drop_last(), m, f) == (Ok::<Seq<ValueModel>, BindErr>(Seq::<ValueModel>::empty()), m));
            assert(bind_spec(s, t, enc.last(), m, f) == (Ok::<ValueModel, BindErr>(v), m));
            assert(bind_items(s, t, enc, m, f) == (Ok::<Seq<ValueModel>, BindErr>(Seq::<ValueModel>::empty().push(v)), m));
            assert(Seq::<ValueModel>::empty().push(v) =~= seq![v]);
        },
    }
}

/// The round trip of the items of a list of leaf values.
proof fn lemma_leaf_items_round_trip(s: Schema, t: TypeRef, items: Seq<RawNode>, m: RegModel, fuel: nat)
    requires
        is_leaf_type(t),
        bind_items(s, t, items, m, fuel).0 is Ok,
    ensures
        bind_items(s, t, encode_items(s, t, bind_items(s, t, items, m, fuel).0->Ok_0), m, fuel).0 == bind_items(
            s,
            t,
            items,
            m,
            fuel,
        ).0,
        bind_items(s, t, items, m, fuel).1 == m,
    decreases items.len(),
{
    if items.len() > 0 {
        lemma_leaf_items_round_trip(s, t, items.drop_last(), m, fuel);
        let vs = bind_items(s, t, items.drop_last(), m, fuel).0->Ok_0;
        law_leaf_round_trip(s, t, items.last(), m, m, fuel);
        let v = bind_spec(s, t, items.last(), m, fuel).0->Ok_0;
        assert(vs.push(v).drop_last() =~= vs);
        let enc = encode_items(s, t, vs.push(v));
        assert(enc == encode_items(s, t, vs).push(encode(s, t, v)));
        assert(enc.drop_last() =~= encode_items(s, t, vs));
        lemma_leaf_items_keep_registry(s, t, encode_items(s, t, vs), m, fuel);
    } else {
        assert(encode_items(s, t, Seq::<ValueModel>::empty()) =~= Seq::<RawNode>::empty());
    }
}

/// Binding to a leaf type leaves the registry as it was.
proof fn lemma_leaf_keeps_registry(s: Schema, t: TypeRef, n: RawNode, m: RegModel, fuel: nat)
    requires
        is_leaf_type(t),
    ensures
        bind_spec(s, t, n, m, fuel).1 == m,
{
}

/// Binding items of a leaf type leaves the registry as it was.
proof fn lemma_leaf_items_keep_registry(s: Schema, t: TypeRef, items: Seq<RawNode>, m: RegModel, fuel: nat)
    requires
        is_leaf_type(t),
    ensures
        bind_items(s, t, items, m, fuel).1 == m,
    decreases items.len(),
{
    if items.len() > 0 {
        lemma_leaf_items_keep_registry(s, t, items.drop_last(), m, fuel);
        lemma_leaf_keeps_registry(s, t, items.last(), m, fuel);
    }
}

} // verus!
