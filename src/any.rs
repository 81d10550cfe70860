use vstd::prelude::*;

use crate::bind::{bind_document, document_spec};
use crate::error::{BindErr, BindError, SaladDowncastError};
use crate::float::{f32_exact, narrow_f64, widen_f32, widen_f32_bits};
use crate::schema::{Schema, TypeRef};
use crate::value::Value;
use crate::raw::{lemma_nodes_of, lemma_pairs_of, nodes_of, pairs_of, RawNode, RawTree};
use crate::text::copy_str;

verus! {

broadcast use vstd::std_specs::vec::group_vec_axioms;

/// The mathematical model of a [`SaladAny`].
pub ghost enum AnyModel {
    Bool(bool),
    Int(int),
    Long(int),
    Float(u32),
    Double(u64),
    Str(Seq<char>),
    Object(Seq<(Seq<char>, AnyModel)>),
    List(Seq<AnyModel>),
}

/// A value decoded without a schema: any non-null document content.
#[derive(Debug)]
pub enum SaladAny {
    Bool(bool),
    /// An integer that fits in 32 bits.
    Int(i32),
    /// An integer that needs 64 bits.
    Long(i64),
    /// A 32-bit float, held as its bit pattern.
    Float(u32),
    /// A 64-bit float that no 32-bit float equals, held as its bit pattern.
    Double(u64),
    String(String),
    Object(SaladObject),
    List(Vec<SaladAny>),
}

/// The dynamic value type under its short name.
pub type Any = SaladAny;

/// The object type under its short name.
pub type Object = SaladObject;

/// A string-keyed object of dynamic values; no key occurs twice.
#[derive(Debug)]
pub struct SaladObject {
    pub(crate) entries: Vec<(String, SaladAny)>,
}

impl View for SaladAny {
    type V = AnyModel;

    closed spec fn view(&self) -> AnyModel {
        any_model(*self)
    }
}

impl View for SaladObject {
    type V = Seq<(Seq<char>, AnyModel)>;

    closed spec fn view(&self) -> Seq<(Seq<char>, AnyModel)> {
        entries_model(self.entries@)
    }
}

/// The model of a dynamic value.
pub closed spec fn any_model(v: SaladAny) -> AnyModel
    decreases v,
{
    match v {
        SaladAny::Bool(b) => AnyModel::Bool(b),
        SaladAny::Int(i) => AnyModel::Int(i as int),
        SaladAny::Long(l) => AnyModel::Long(l as int),
        SaladAny::Float(f) => AnyModel::Float(f),
        SaladAny::Double(d) => AnyModel::Double(d),
        SaladAny::String(s) => AnyModel::Str(s@),
        SaladAny::Object(o) => AnyModel::Object(entries_model(o.entries@)),
        SaladAny::List(items) => AnyModel::List(list_model(items@)),
    }
}

/// The models of a sequence of dynamic values.
pub closed spec fn list_model(items: Seq<SaladAny>) -> Seq<AnyModel>
    decreases items,
{
    if items.len() == 0 {
        Seq::empty()
    } else {
        list_model(items.drop_last()).push(any_model(items.last()))
    }
}

/// The model of the entries of an object.
pub closed spec fn entries_model(es: Seq<(String, SaladAny)>) -> Seq<(Seq<char>, AnyModel)>
    decreases es,
{
    if es.len() == 0 {
        Seq::empty()
    } else {
        entries_model(es.drop_last()).push((es.last().0@, any_model(es.last().1)))
    }
}

/// `list_model` keeps the length and maps each value to its model.
pub broadcast proof fn lemma_list_model(items: Seq<SaladAny>)
    ensures
        #[trigger] list_model(items).len() == items.len(),
        forall|i: int| 0 <= i < items.len() ==> list_model(items)[i] == items[i]@,
    decreases items.len(),
{
    if items.len() > 0 {
        lemma_list_model(items.drop_last());
    }
}

/// `entries_model` keeps the length and maps each entry to its model.
pub broadcast proof fn lemma_entries_model(es: Seq<(String, SaladAny)>)
    ensures
        #[trigger] entries_model(es).len() == es.len(),
        forall|i: int| 0 <= i < es.len() ==> entries_model(es)[i] == (es[i].0@, es[i].1@),
    decreases es.len(),
{
    if es.len() > 0 {
        lemma_entries_model(es.drop_last());
    }
}

/// The keys of the entries of an object model, in order.
pub open spec fn keys_of(es: Seq<(Seq<char>, AnyModel)>) -> Seq<Seq<char>> {
    es.map_values(|e: (Seq<char>, AnyModel)| e.0)
}

/// Decoding a scalar, a sequence or a mapping into a dynamic value. Integers
/// take the narrowest of 32 and 64 bits, floats take 32 bits where that keeps
/// their value; a null has no dynamic value.
pub open spec fn any_of(n: RawNode) -> Result<AnyModel, BindErr>
    decreases n,
{
    match n {
        RawNode::Null => Err(BindErr::Mismatch),
        RawNode::Bool(b) => Ok(AnyModel::Bool(b)),
        RawNode::Int(i) => if i32::MIN <= i <= i32::MAX {
            Ok(AnyModel::Int(i))
        } else {
            Ok(AnyModel::Long(i))
        },
        RawNode::Float(d) => match f32_exact(d) {
            Some(f) => Ok(AnyModel::Float(f)),
            None => Ok(AnyModel::Double(d)),
        },
        RawNode::Str(s) => Ok(AnyModel::Str(s)),
        RawNode::Sequence(items) => match any_items(items) {
            Ok(vs) => Ok(AnyModel::List(vs)),
            Err(e) => Err(e),
        },
        RawNode::Mapping(es) => match object_of(es) {
            Ok(o) => Ok(AnyModel::Object(o)),
            Err(e) => Err(e),
        },
    }
}

/// Decoding each item in order; the first failure is the result.
pub open spec fn any_items(items: Seq<RawNode>) -> Result<Seq<AnyModel>, BindErr>
    decreases items,
{
    if items.len() == 0 {
        Ok(Seq::empty())
    } else {
        match any_items(items.drop_last()) {
            Err(e) => Err(e),
            Ok(vs) => match any_of(items.last()) {
                Err(e) => Err(e),
                Ok(v) => Ok(vs.push(v)),
            },
        }
    }
}

/// Decoding mapping entries into an object, in order: each key must be a
/// string not seen before, each value must decode.
pub open spec fn object_of(es: Seq<(RawNode, RawNode)>) -> Result<Seq<(Seq<char>, AnyModel)>, BindErr>
    decreases es,
{
    if es.len() == 0 {
        Ok(Seq::empty())
    } else {
        match object_of(es.drop_last()) {
            Err(e) => Err(e),
            Ok(o) => match es.last().0 {
                RawNode::Str(k) => if keys_of(o).contains(k) {
                    Err(BindErr::DuplicateField { key: k })
                } else {
                    match any_of(es.last().1) {
                        Err(e) => Err(e),
                        Ok(v) => Ok(o.push((k, v))),
                    }
                },
                _ => Err(BindErr::Mismatch),
            },
        }
    }
}

/// Decodes a tree into a dynamic value.
#[verifier::loop_isolation(false)]
pub fn decode_any(t: &RawTree) -> (r: Result<SaladAny, BindError>)
    ensures
        match r {
            Ok(v) => any_of(t@) == Ok::<AnyModel, BindErr>(v@),
            Err(e) => any_of(t@) == Err::<AnyModel, BindErr>(e@),
        },
    decreases t,
{
    match t {
        RawTree::Null => Err(BindError::Mismatch),
        RawTree::Bool(b) => Ok(SaladAny::Bool(*b)),
        RawTree::Int(i) => if i32::MIN as i64 <= *i && *i <= i32::MAX as i64 {
            Ok(SaladAny::Int(*i as i32))
        } else {
            Ok(SaladAny::Long(*i))
        },
        RawTree::Float(d) => match narrow_f64(*d) {
            Some(f) => Ok(SaladAny::Float(f)),
            None => Ok(SaladAny::Double(*d)),
        },
        RawTree::Str(s) => Ok(SaladAny::String(s.clone())),
        RawTree::Sequence(items) => {
            let mut out: Vec<SaladAny> = Vec::new();
            let mut i: usize = 0;
            let ghost nodes = t@->Sequence_0;
            proof {
                lemma_nodes_of(items@);
            }
            assert(nodes.subrange(0, 0) =~= Seq::<RawNode>::empty());
            while i < items.len()
                invariant
                    i <= items.len(),
                    nodes.len() == items.len(),
                    forall|j: int| 0 <= j < items.len() ==> nodes[j] == items[j]@,
                    any_items(nodes.subrange(0, i as int)) == Ok::<Seq<AnyModel>, BindErr>(
                        list_model(out@),
                    ),
                decreases items.len() - i,
            {
                proof {
                    assert(decreases_to!(items => items[i as int]));
                }
                let ghost prev = list_model(out@);
                assert(nodes.subrange(0, i + 1).drop_last() =~= nodes.subrange(0, i as int));
                match decode_any(&items[i]) {
                    Err(e) => {
                        assert(any_items(nodes.subrange(0, i + 1)) == Err::<Seq<AnyModel>, BindErr>(e@));
                        proof {
                            lemma_items_prefix_err(nodes, i as int, e@);
                        }
                        return Err(e);
                    },
                    Ok(v) => {
                        let ghost before = out@;
                        out.push(v);
                        assert(out@.drop_last() =~= before);
                    },
                }
                i += 1;
            }
            assert(nodes.subrange(0, items.len() as int) =~= nodes);
            Ok(SaladAny::List(out))
        },
        RawTree::Mapping(es) => match decode_object(es) {
            Ok(o) => Ok(SaladAny::Object(o)),
            Err(e) => Err(e),
        },
    }
}

/// Decodes mapping entries into an object: keys must be strings, none twice.
#[verifier::loop_isolation(false)]
pub fn decode_object(es: &Vec<(RawTree, RawTree)>) -> (r: Result<SaladObject, BindError>)
    ensures
        match r {
            Ok(o) => object_of(pairs_of(es@)) == Ok::<Seq<(Seq<char>, AnyModel)>, BindErr>(o@),
            Err(e) => object_of(pairs_of(es@)) == Err::<Seq<(Seq<char>, AnyModel)>, BindErr>(e@),
        },
    decreases es,
{
    let mut out: Vec<(String, SaladAny)> = Vec::new();
    let mut i: usize = 0;
    let ghost nodes = pairs_of(es@);
    proof {
        lemma_pairs_of(es@);
    }
    assert(nodes.subrange(0, 0) =~= Seq::<(RawNode, RawNode)>::empty());
    while i < es.len()
        invariant
            i <= es.len(),
            nodes.len() == es.len(),
            forall|j: int| 0 <= j < es.len() ==> nodes[j] == (es[j].0@, es[j].1@),
            object_of(nodes.subrange(0, i as int)) == Ok::<Seq<(Seq<char>, AnyModel)>, BindErr>(
                entries_model(out@),
            ),
        decreases es.len() - i,
    {
        proof {
            assert(decreases_to!(es => es[i as int]));
        }
        let ghost prev = entries_model(out@);
        assert(nodes.subrange(0, i + 1).drop_last() =~= nodes.subrange(0, i as int));
        let key = match &es[i].0 {
            RawTree::Str(k) => k,
            _ => {
                proof {
                    lemma_object_prefix_err(nodes, i as int, BindErr::Mismatch);
                }
                return Err(BindError::Mismatch);
            },
        };
        if has_key(&out, key) {
            proof {
                lemma_object_prefix_err(nodes, i as int, BindErr::DuplicateField { key: key@ });
            }
            return Err(BindError::DuplicateField { key: key.clone() });
        }
        match decode_any(&es[i].1) {
            Err(e) => {
                proof {
                    lemma_object_prefix_err(nodes, i as int, e@);
                }
                return Err(e);
            },
            Ok(v) => {
                let ghost before = out@;
                out.push((key.clone(), v));
                assert(out@.drop_last() =~= before);
            },
        }
        i += 1;
    }
    assert(nodes.subrange(0, es.len() as int) =~= nodes);
    Ok(SaladObject { entries: out })
}


/// A failure on the first `i + 1` items is the failure of them all.
proof fn lemma_items_prefix_err(nodes: Seq<RawNode>, i: int, e: BindErr)
    requires
        0 <= i < nodes.len(),
        any_items(nodes.subrange(0, i + 1)) == Err::<Seq<AnyModel>, BindErr>(e),
    ensures
        any_items(nodes) == Err::<Seq<AnyModel>, BindErr>(e),
    decreases nodes.len() - i,
{
    if i + 1 < nodes.len() {
        assert(nodes.subrange(0, i + 2).drop_last() =~= nodes.subrange(0, i + 1));
        lemma_items_prefix_err(nodes, i + 1, e);
    } else {
        assert(nodes.subrange(0, i + 1) =~= nodes);
    }
}

/// A failure on the first `i + 1` entries is the failure of them all.
proof fn lemma_object_prefix_err(es: Seq<(RawNode, RawNode)>, i: int, e: BindErr)
    requires
        0 <= i < es.len(),
        object_of(es.subrange(0, i + 1)) == Err::<Seq<(Seq<char>, AnyModel)>, BindErr>(e),
    ensures
        object_of(es) == Err::<Seq<(Seq<char>, AnyModel)>, BindErr>(e),
    decreases es.len() - i,
{
    if i + 1 < es.len() {
        assert(es.subrange(0, i + 2).drop_last() =~= es.subrange(0, i + 1));
        lemma_object_prefix_err(es, i + 1, e);
    } else {
        assert(es.subrange(0, i + 1) =~= es);
    }
}

/// Whether some entry has the key `k`.
#[verifier::loop_isolation(false)]
fn has_key(es: &Vec<(String, SaladAny)>, k: &String) -> (r: bool)
    ensures
        r == keys_of(entries_model(es@)).contains(k@),
{
    proof {
        lemma_entries_model(es@);
    }
    let mut i: usize = 0;
    while i < es.len()
        invariant
            i <= es.len(),
            forall|j: int| 0 <= j < i ==> es[j].0@ != k@,
        decreases es.len() - i,
    {
        if es[i].0 == *k {
            assert(entries_model(es@)[i as int].0 == k@);
            assert(keys_of(entries_model(es@))[i as int] == k@);
            return true;
        }
        i += 1;
    }
    assert(forall|j: int| 0 <= j < es.len() ==> keys_of(entries_model(es@))[j] != k@);
    false
}

impl SaladObject {
    /// No key occurs twice.
    pub open spec fn wf(&self) -> bool {
        keys_of(self@).no_duplicates()
    }

    /// The number of entries.
    pub fn len(&self) -> (r: usize)
        ensures
            r == self@.len(),
    {
        proof {
            lemma_entries_model(self.entries@);
        }
        self.entries.len()
    }

    /// The value under `key`, if any.
    pub fn get(&self, key: &str) -> (r: Option<&SaladAny>)
        ensures
            match r {
                Some(v) => exists|i: int|
                    0 <= i < self@.len() && self@[i] == (key@, v@) && forall|j: int|
                        0 <= j < i ==> self@[j].0 != key@,
                None => !keys_of(self@).contains(key@),
            },
    {
        proof {
            lemma_entries_model(self.entries@);
        }
        let k = copy_str(key);
        let mut i: usize = 0;
        while i < self.entries.len()
            invariant
                i <= self.entries.len(),
                k@ == key@,
                self@ == entries_model(self.entries@),
                self@.len() == self.entries.len(),
                forall|j: int| 0 <= j < self.entries.len() ==> self@[j] == (self.entries[j].0@, self.entries[j].1@),
                forall|j: int| 0 <= j < i ==> self@[j].0 != key@,
            decreases self.entries.len() - i,
        {
            if self.entries[i].0 == k {
                assert(self@[i as int] == (key@, self.entries[i as int].1@));
                return Some(&self.entries[i].1);
            }
            i += 1;
        }
        assert(forall|j: int| 0 <= j < self@.len() ==> keys_of(self@)[j] != key@);
        None
    }
}

/// The tree that a dynamic value is written as: integers and floats as
/// 64-bit values, objects as mappings with string keys.
pub open spec fn raw_of(a: AnyModel) -> RawNode
    decreases a,
{
    match a {
        AnyModel::Bool(b) => RawNode::Bool(b),
        AnyModel::Int(i) => RawNode::Int(i),
        AnyModel::Long(l) => RawNode::Int(l),
        AnyModel::Float(f) => RawNode::Float(widen_f32(f)),
        AnyModel::Double(d) => RawNode::Float(d),
        AnyModel::Str(s) => RawNode::Str(s),
        AnyModel::Object(es) => RawNode::Mapping(raw_entries(es)),
        AnyModel::List(items) => RawNode::Sequence(raw_list(items)),
    }
}

/// The trees of a list of dynamic values.
pub open spec fn raw_list(items: Seq<AnyModel>) -> Seq<RawNode>
    decreases items,
{
    if items.len() == 0 {
        Seq::empty()
    } else {
        raw_list(items.drop_last()).push(raw_of(items.last()))
    }
}

/// The mapping entries of an object.
pub open spec fn raw_entries(es: Seq<(Seq<char>, AnyModel)>) -> Seq<(RawNode, RawNode)>
    decreases es,
{
    if es.len() == 0 {
        Seq::empty()
    } else {
        raw_entries(es.drop_last()).push((RawNode::Str(es.last().0), raw_of(es.last().1)))
    }
}

impl SaladAny {
    /// The tree this value is written as; see [`raw_of`].
    #[verifier::loop_isolation(false)]
    pub fn to_raw(&self) -> (r: RawTree)
        ensures
            r@ == raw_of(self@),
        decreases self,
    {
        match self {
            SaladAny::Bool(b) => RawTree::Bool(*b),
            SaladAny::Int(i) => RawTree::Int(*i as i64),
            SaladAny::Long(l) => RawTree::Int(*l),
            SaladAny::Float(f) => RawTree::Float(widen_f32_bits(*f)),
            SaladAny::Double(d) => RawTree::Float(*d),
            SaladAny::String(s) => RawTree::Str(s.clone()),
            SaladAny::Object(o) => RawTree::Mapping(o.raw_entries_exec()),
            SaladAny::List(items) => {
                let mut out: Vec<RawTree> = Vec::new();
                let mut i: usize = 0;
                proof {
                    lemma_list_model(items@);
                }
                while i < items.len()
                    invariant
                        i <= items.len(),
                        nodes_of(out@) == raw_list(list_model(items@.subrange(0, i as int))),
                    decreases items.len() - i,
                {
                    proof {
                        assert(decreases_to!(items => items[i as int]));
                    }
                    let t = items[i].to_raw();
                    let ghost before = out@;
                    out.push(t);
                    assert(out@.drop_last() =~= before);
                    let ghost sub = items@.subrange(0, i + 1);
                    assert(sub.drop_last() =~= items@.subrange(0, i as int));
                    assert(sub.last() == items@[i as int]);
                    assert(list_model(sub) == list_model(items@.subrange(0, i as int)).push(items@[i as int]@));
                    assert(list_model(sub).drop_last() =~= list_model(items@.subrange(0, i as int)));
                    i += 1;
                }
                assert(items@.subrange(0, items.len() as int) =~= items@);
                RawTree::Sequence(out)
            },
        }
    }

    /// Reads this value as the schema type `ty`, by binding the tree it is
    /// written as.
    pub fn downcast(&self, s: &Schema, ty: &TypeRef) -> (r: Result<Value, SaladDowncastError>)
        ensures
            match r {
                Ok(v) => document_spec(*s, *ty, raw_of(self@)) == Ok::<_, BindErr>(v@),
                Err(e) => e.cause is Some && document_spec(*s, *ty, raw_of(self@)) == Err::<crate::value::ValueModel, _>(e.cause->Some_0@),
            },
    {
        let t = self.to_raw();
        match bind_document(s, ty, &t) {
            Ok(v) => Ok(v),
            Err(e) => Err(SaladDowncastError { cause: Some(e) }),
        }
    }

    /// Reads this value as the schema type `ty`; see [`SaladAny::downcast`].
    pub fn downcast_into(self, s: &Schema, ty: &TypeRef) -> (r: Result<Value, SaladDowncastError>)
        ensures
            match r {
                Ok(v) => document_spec(*s, *ty, raw_of(self@)) == Ok::<_, BindErr>(v@),
                Err(e) => e.cause is Some && document_spec(*s, *ty, raw_of(self@)) == Err::<crate::value::ValueModel, _>(e.cause->Some_0@),
            },
    {
        self.downcast(s, ty)
    }
}

impl SaladObject {
    /// The mapping entries this object is written as.
    #[verifier::loop_isolation(false)]
    pub(crate) fn raw_entries_exec(&self) -> (r: Vec<(RawTree, RawTree)>)
        ensures
            pairs_of(r@) == raw_entries(self@),
        decreases self,
    {
        let mut out: Vec<(RawTree, RawTree)> = Vec::new();
        let mut i: usize = 0;
        proof {
            lemma_entries_model(self.entries@);
        }
        while i < self.entries.len()
            invariant
                i <= self.entries.len(),
                pairs_of(out@) == raw_entries(entries_model(self.entries@.subrange(0, i as int))),
            decreases self.entries.len() - i,
        {
            proof {
                assert(decreases_to!(self.entries => self.entries[i as int]));
            }
            let v = self.entries[i].1.to_raw();
            let ghost before = out@;
            let k = RawTree::Str(self.entries[i].0.clone());
            proof {
                crate::raw::lemma_node_of_str(k);
            }
            out.push((k, v));
            assert(out@.drop_last() =~= before);
            assert(pairs_of(out@) == pairs_of(before).push((RawNode::Str(self.entries@[i as int].0@), v@)));
            let ghost sub = self.entries@.subrange(0, i + 1);
            let ghost prev = self.entries@.subrange(0, i as int);
            assert(sub.drop_last() =~= prev);
            assert(sub.last() == self.entries@[i as int]);
            assert(entries_model(sub) == entries_model(prev).push((self.entries@[i as int].0@, self.entries@[i as int].1@)));
            assert(entries_model(sub).drop_last() =~= entries_model(prev));
            i += 1;
        }
        assert(self.entries@.subrange(0, self.entries.len() as int) =~= self.entries@);
        out
    }

    /// Reads this object as the schema type `ty`, by binding the mapping it
    /// is written as.
    pub fn downcast(&self, s: &Schema, ty: &TypeRef) -> (r: Result<Value, SaladDowncastError>)
        ensures
            match r {
                Ok(v) => document_spec(*s, *ty, RawNode::Mapping(raw_entries(self@))) == Ok::<_, BindErr>(v@),
                Err(e) => e.cause is Some && document_spec(*s, *ty, RawNode::Mapping(raw_entries(self@))) == Err::<
                    crate::value::ValueModel,
                    _,
                >(e.cause->Some_0@),
            },
    {
        let t = RawTree::Mapping(self.raw_entries_exec());
        match bind_document(s, ty, &t) {
            Ok(v) => Ok(v),
            Err(e) => Err(SaladDowncastError { cause: Some(e) }),
        }
    }

    /// Reads this object as the schema type `ty`; see [`SaladObject::downcast`].
    pub fn downcast_into(self, s: &Schema, ty: &TypeRef) -> (r: Result<Value, SaladDowncastError>)
        ensures
            match r {
                Ok(v) => document_spec(*s, *ty, RawNode::Mapping(raw_entries(self@))) == Ok::<_, BindErr>(v@),
                Err(e) => e.cause is Some && document_spec(*s, *ty, RawNode::Mapping(raw_entries(self@))) == Err::<
                    crate::value::ValueModel,
                    _,
                >(e.cause->Some_0@),
            },
    {
        self.downcast(s, ty)
    }
}

} // verus!
