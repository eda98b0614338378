//! The explicit enumeration a typed schema node carries, which caps the
//! values it accepts.

use vstd::prelude::*;
use crate::json::{JsonValue, json_eq};
use crate::schema::{SchemaNode, SchemaNodeKind};
use crate::semantics::accepts;

verus! {

/// The enumeration of a string, number, integer, boolean, null, object or
/// array schema, when it has one.
pub open spec fn enumeration_of(s: SchemaNode) -> Option<Vec<JsonValue>> {
    match s.kind {
        SchemaNodeKind::String { enumeration, .. } => enumeration,
        SchemaNodeKind::Number { enumeration, .. } => enumeration,
        SchemaNodeKind::Integer { enumeration, .. } => enumeration,
        SchemaNodeKind::Boolean { enumeration } => enumeration,
        SchemaNodeKind::Null { enumeration } => enumeration,
        SchemaNodeKind::Object { enumeration, .. } => enumeration,
        SchemaNodeKind::Array { enumeration, .. } => enumeration,
        _ => None,
    }
}

/// The enumeration `schema` carries (see `enumeration_of`).
pub fn constrained_enumeration(schema: &SchemaNode) -> (r: Option<&Vec<JsonValue>>)
    ensures
        match r {
            Some(values) => enumeration_of(*schema) == Some(*values),
            None => enumeration_of(*schema) is None,
        },
{
    match &schema.kind {
        SchemaNodeKind::String { enumeration: Some(values), .. } => Some(values),
        SchemaNodeKind::Number { enumeration: Some(values), .. } => Some(values),
        SchemaNodeKind::Integer { enumeration: Some(values), .. } => Some(values),
        SchemaNodeKind::Boolean { enumeration: Some(values) } => Some(values),
        SchemaNodeKind::Null { enumeration: Some(values) } => Some(values),
        SchemaNodeKind::Object { enumeration: Some(values), .. } => Some(values),
        SchemaNodeKind::Array { enumeration: Some(values), .. } => Some(values),
        _ => None,
    }
}

/// Law: a schema with an enumeration accepts only values equal to one of
/// its members.
pub proof fn lemma_enumeration_caps(s: SchemaNode, v: JsonValue, rx: spec_fn(Seq<char>, Seq<char>) -> bool)
    requires
        enumeration_of(s) is Some,
        accepts(s, v, rx),
    ensures
        exists|i: int| 0 <= i < enumeration_of(s)->0@.len() && json_eq(v, #[trigger] enumeration_of(s)->0@[i]),
{
}

} // verus!
