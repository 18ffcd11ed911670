//! The introspection document as plain values: the types it declares, their
//! kinds, names and the members that the renderers read.
use vstd::prelude::*;

verus! {

/// The kind tag of an introspected type.
#[derive(Clone, Copy, Debug, PartialEq, Eq, Structural)]
pub enum TypeKind {
    Scalar,
    Object,
    Interface,
    Union,
    Enum,
    InputObject,
    List,
    NonNull,
}

/// A field of an object, or an input field of an input object, with the name
/// of the named type it refers to (absent where the document gave none).
#[derive(Clone, Debug)]
pub struct Field {
    pub name: String,
    pub of_type: Option<String>,
}

/// One declared type of the schema.
#[derive(Clone, Debug)]
pub struct FullType {
    pub kind: Option<TypeKind>,
    pub name: Option<String>,
    pub fields: Option<Vec<Field>>,
    pub input_fields: Option<Vec<Field>>,
    pub enum_values: Option<Vec<String>>,
}

/// The schema object: its types collection, which may be absent, and whose
/// entries may each be absent.
#[derive(Clone, Debug)]
pub struct Schema {
    pub types: Option<Vec<Option<FullType>>>,
}

/// The response to an introspection query, which may carry no schema.
#[derive(Clone, Debug)]
pub struct IntrospectionResponse {
    pub schema: Option<Schema>,
}

/// The entries of `s` that are present, in order.
pub open spec fn present_types(s: Seq<Option<FullType>>) -> Seq<FullType>
    decreases s.len(),
{
    if s.len() == 0 {
        Seq::empty()
    } else {
        let rest = present_types(s.drop_last());
        match s.last() {
            Some(t) => rest.push(t),
            None => rest,
        }
    }
}

} // verus!
