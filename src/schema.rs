use vstd::prelude::*;

use crate::raw::RawTree;

verus! {

/// A reference to a schema type.
pub enum TypeRef {
    Bool,
    /// A 32-bit integer.
    Int,
    /// A 64-bit integer.
    Long,
    /// A 32-bit float.
    Float,
    /// A 64-bit float.
    Double,
    Str,
    /// Any non-null value, decoded without a schema.
    Any,
    /// A string-keyed object of dynamic values.
    Object,
    /// The record at this index of [`Schema::records`].
    Record(usize),
    /// The union at this index of [`Schema::unions`].
    Union(usize),
    /// The enumeration at this index of [`Schema::enums`].
    Enum(usize),
    /// A list of values of the inner type.
    List(Box<TypeRef>),
}

/// A field of a record.
pub struct FieldDef {
    pub name: String,
    pub ty: TypeRef,
    /// Whether the field may be absent.
    pub optional: bool,
    /// The value taken when the field is absent.
    pub default: Option<RawTree>,
    /// Whether the field holds the record's identifier.
    pub identifier: bool,
    /// A naming scope entered while the field's value is bound.
    pub subscope: Option<String>,
    /// For a list field given as a mapping: the field that receives each entry's key.
    pub map_key: Option<String>,
    /// For a list field given as a mapping: the field that receives a scalar entry value.
    pub map_predicate: Option<String>,
}

/// A record: named fields, at most one of them the identifier.
pub struct RecordDef {
    pub name: String,
    pub fields: Vec<FieldDef>,
}

/// A union: candidate types, tried in this order.
pub struct UnionDef {
    pub name: String,
    pub candidates: Vec<TypeRef>,
}

/// An enumeration of string literals.
pub struct EnumDef {
    pub name: String,
    pub literals: Vec<String>,
}

/// The tables of record, union and enumeration types that documents bind to.
pub struct Schema {
    pub records: Vec<RecordDef>,
    pub unions: Vec<UnionDef>,
    pub enums: Vec<EnumDef>,
}

/// The element type of a list field: the inner type of a list, else the type itself.
pub open spec fn elem_type(ty: TypeRef) -> TypeRef {
    match ty {
        TypeRef::List(inner) => *inner,
        _ => ty,
    }
}

} // verus!
