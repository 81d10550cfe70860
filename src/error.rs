use vstd::prelude::*;

verus! {

/// The mathematical model of a [`BindError`].
pub ghost enum BindErr {
    Mismatch,
    DuplicateField { key: Seq<char> },
    DuplicateId { id: Seq<char> },
    MissingField { field: Seq<char> },
    InvalidDefault { field: Seq<char> },
    NoCandidate { union_name: Seq<char> },
    UnknownLiteral { value: Seq<char>, accepted: Seq<Seq<char>> },
    NotAMapping { field: Seq<char> },
    TooDeep,
}

/// Why a document could not be bound.
#[derive(Debug)]
pub enum BindError {
    /// The tree does not have the shape the type expects.
    Mismatch,
    /// A key occurs twice in one mapping.
    DuplicateField { key: String },
    /// An absolute identifier is declared twice.
    DuplicateId { id: String },
    /// A mandatory field is absent and has no default.
    MissingField { field: String },
    /// The default of a field does not bind to the field's type.
    InvalidDefault { field: String },
    /// No candidate of a union binds.
    NoCandidate { union_name: String },
    /// A string is none of an enumeration's literals, which are listed.
    UnknownLiteral { value: String, accepted: Vec<String> },
    /// A map-or-sequence entry is a scalar and the field names no predicate.
    NotAMapping { field: String },
    /// The document nests deeper than the binder follows.
    TooDeep,
}

/// The models of a sequence of strings.
pub open spec fn strings_view(v: Seq<String>) -> Seq<Seq<char>> {
    v.map_values(|x: String| x@)
}

/// A copy of a list of strings.
pub fn copy_strings(v: &Vec<String>) -> (r: Vec<String>)
    ensures
        strings_view(r@) == strings_view(v@),
{
    let mut out: Vec<String> = Vec::new();
    let mut i: usize = 0;
    while i < v.len()
        invariant
            i <= v.len(),
            out.len() == i,
            forall|j: int| 0 <= j < i ==> out[j]@ == v[j]@,
        decreases v.len() - i,
    {
        out.push(v[i].clone());
        i += 1;
    }
    assert(strings_view(out@) =~= strings_view(v@));
    out
}

impl View for BindError {
    type V = BindErr;

    open spec fn view(&self) -> BindErr {
        match self {
            BindError::Mismatch => BindErr::Mismatch,
            BindError::DuplicateField { key } => BindErr::DuplicateField { key: key@ },
            BindError::DuplicateId { id } => BindErr::DuplicateId { id: id@ },
            BindError::MissingField { field } => BindErr::MissingField { field: field@ },
            BindError::InvalidDefault { field } => BindErr::InvalidDefault { field: field@ },
            BindError::NoCandidate { union_name } => BindErr::NoCandidate { union_name: union_name@ },
            BindError::UnknownLiteral { value, accepted } => BindErr::UnknownLiteral {
                value: value@,
                accepted: strings_view(accepted@),
            },
            BindError::NotAMapping { field } => BindErr::NotAMapping { field: field@ },
            BindError::TooDeep => BindErr::TooDeep,
        }
    }
}

/// The failure to read a dynamic value as a schema type.
#[derive(Debug)]
pub struct SaladDowncastError {
    /// Why the value does not bind, when known.
    pub cause: Option<BindError>,
}

impl SaladDowncastError {
    /// A failure with no stated cause.
    pub fn new() -> (r: SaladDowncastError)
        ensures
            r.cause is None,
    {
        SaladDowncastError { cause: None }
    }
}

} // verus!
