use vstd::prelude::*;

/// Dynamic values: documents decoded without a schema.
pub mod any;
/// The schema-driven binder: records, unions, enumerations and lists.
pub mod bind;
/// Writing bound values back as trees.
pub mod encode;
/// Why binding fails.
pub mod error;
/// 32- and 64-bit floats held as bit patterns.
pub mod float;
/// General properties of binding, proved.
pub mod laws;
/// Snake-case names.
pub mod naming;
/// Import and include directives.
pub mod preprocess;
/// Parsed document trees.
pub mod raw;
/// Schema descriptors.
pub mod schema;
/// Identifier resolution and scopes.
pub mod scope;
/// String helpers.
pub mod text;
/// Bound values.
pub mod value;

verus! {

} // verus!
