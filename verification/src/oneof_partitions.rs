//! Two-arm `oneOf` partitions whose language is a single small value or a
//! simple set: "all strings" xor "nonempty strings" is the empty string,
//! likewise for objects and arrays, and "all objects" xor "objects with `p`"
//! is the objects without `p`. Each recognizer also checks that a target
//! schema accepts that language by its shape.

use vstd::prelude::*;
use crate::json::{JsonValue, JSON_TYPE_STRING, JSON_TYPE_OBJECT, JSON_TYPE_ARRAY, members_have_key, str_eq};
use crate::schema::{SchemaNode, SchemaNodeKind, count_in_range};
use crate::semantics::{accepts, matching_count, items_unique, dependencies_ok};
use crate::types::{may_have_type, possible_json_type_mask, lemma_type_facts_sound, trivially_universal,
    schema_is_trivially_universal, lemma_trivially_universal_accepts};

verus! {

/// What a `oneOf` of `branches` accepts: exactly one branch accepts `v`.
pub open spec fn one_of_accepts(branches: Seq<SchemaNode>, v: JsonValue, rx: spec_fn(Seq<char>, Seq<char>) -> bool) -> bool {
    exists|i: int| 0 <= i < branches.len() && accepts(#[trigger] branches[i], v, rx)
        && forall|j: int| 0 <= j < branches.len() && j != i ==> !accepts(#[trigger] branches[j], v, rx)
}

/// A value two branches both accept is no value of their `oneOf`, nor is a
/// value neither accepts.
proof fn lemma_one_of_pair(branches: Seq<SchemaNode>, v: JsonValue, rx: spec_fn(Seq<char>, Seq<char>) -> bool)
    requires
        branches.len() == 2,
        one_of_accepts(branches, v, rx),
    ensures
        accepts(branches[0], v, rx) != accepts(branches[1], v, rx),
{
    let i = choose|i: int| 0 <= i < branches.len() && accepts(#[trigger] branches[i], v, rx)
        && forall|j: int| 0 <= j < branches.len() && j != i ==> !accepts(#[trigger] branches[j], v, rx);
    if i == 0 {
        assert(!accepts(branches[1], v, rx));
    } else {
        assert(!accepts(branches[0], v, rx));
    }
}

/// Whether `s` is, through nonempty `anyOf`/`allOf` wrappers, a plain string
/// schema with `minLength: min` and no other keyword.
pub open spec fn string_with_min(s: SchemaNode, min: u64) -> bool
    decreases s,
{
    match s.kind {
        SchemaNodeKind::AnyOf(children) => children@.len() > 0
            && forall|i: int| 0 <= i < children@.len() ==> string_with_min(#[trigger] children@[i], min),
        SchemaNodeKind::AllOf(children) => children@.len() > 0
            && forall|i: int| 0 <= i < children@.len() ==> string_with_min(#[trigger] children@[i], min),
        SchemaNodeKind::String { length, pattern, format, enumeration } =>
            length.min == min && length.max is None && pattern is None && format is None && enumeration is None,
        _ => false,
    }
}

/// Whether `s` accepts the empty string by its shape: universal schemas,
/// unions with such a branch, intersections of such conjuncts, conditionals
/// whose guard takes no strings, and plain strings without `minLength`.
pub open spec fn accepts_empty_string(s: SchemaNode) -> bool
    decreases s,
{
    match s.kind {
        SchemaNodeKind::Any => true,
        SchemaNodeKind::BoolSchema(b) => b,
        SchemaNodeKind::AnyOf(children) => exists|i: int| 0 <= i < children@.len() && accepts_empty_string(#[trigger] children@[i]),
        SchemaNodeKind::AllOf(children) => forall|i: int| 0 <= i < children@.len() ==> accepts_empty_string(#[trigger] children@[i]),
        SchemaNodeKind::IfThenElse { if_schema, else_schema, .. } => !may_have_type(*if_schema, JSON_TYPE_STRING)
            && (else_schema matches Some(e) ==> accepts_empty_string(*e)),
        SchemaNodeKind::String { length, pattern, format, enumeration } =>
            length.min == 0 && pattern is None && format is None && enumeration is None,
        _ => false,
    }
}

/// A plain string schema with `minLength: min` accepts exactly the strings
/// of at least `min` characters.
proof fn lemma_string_with_min(s: SchemaNode, min: u64, v: JsonValue, rx: spec_fn(Seq<char>, Seq<char>) -> bool)
    requires
        string_with_min(s, min),
    ensures
        accepts(s, v, rx) == (v is String && v->String_0@.len() >= min),
    decreases s,
{
    match s.kind {
        SchemaNodeKind::AnyOf(children) => {
            assert forall|i: int| 0 <= i < children@.len() implies
                accepts(#[trigger] children@[i], v, rx) == (v is String && v->String_0@.len() >= min) by {
                lemma_string_with_min(children@[i], min, v, rx);
            }
            assert(string_with_min(children@[0], min));
            assert(accepts(children@[0], v, rx) == (v is String && v->String_0@.len() >= min));
        },
        SchemaNodeKind::AllOf(children) => {
            assert forall|i: int| 0 <= i < children@.len() implies
                accepts(#[trigger] children@[i], v, rx) == (v is String && v->String_0@.len() >= min) by {
                lemma_string_with_min(children@[i], min, v, rx);
            }
            assert(accepts(children@[0], v, rx) == (v is String && v->String_0@.len() >= min));
        },
        _ => {},
    }
}

/// A schema that accepts the empty string by its shape accepts it.
proof fn lemma_accepts_empty_string(s: SchemaNode, t: String, rx: spec_fn(Seq<char>, Seq<char>) -> bool)
    requires
        accepts_empty_string(s),
        t@.len() == 0,
    ensures
        accepts(s, JsonValue::String(t), rx),
    decreases s,
{
    let v = JsonValue::String(t);
    match s.kind {
        SchemaNodeKind::AnyOf(children) => {
            let i = choose|i: int| 0 <= i < children@.len() && accepts_empty_string(#[trigger] children@[i]);
            lemma_accepts_empty_string(children@[i], t, rx);
        },
        SchemaNodeKind::AllOf(children) => {
            assert forall|i: int| 0 <= i < children@.len() implies accepts(#[trigger] children@[i], v, rx) by {
                lemma_accepts_empty_string(children@[i], t, rx);
            }
        },
        SchemaNodeKind::IfThenElse { if_schema, else_schema, .. } => {
            lemma_type_facts_sound(*if_schema, v, rx);
            match else_schema {
                Some(e) => lemma_accepts_empty_string(*e, t, rx),
                None => {},
            }
        },
        _ => {},
    }
}

/// Whether every schema of `children` is a plain string schema with
/// `minLength: min` (see `string_with_min`).
fn all_strings_with_min(schema: &SchemaNode, children: &Vec<SchemaNode>, min: u64) -> (r: bool)
    requires
        schema.kind == SchemaNodeKind::AnyOf(*children) || schema.kind == SchemaNodeKind::AllOf(*children),
    ensures
        r == forall|i: int| 0 <= i < children@.len() ==> string_with_min(#[trigger] children@[i], min),
    decreases *schema, 0nat,
{
    let mut i: usize = 0;
    while i < children.len()
        invariant
            i <= children@.len(),
            schema.kind == SchemaNodeKind::AnyOf(*children) || schema.kind == SchemaNodeKind::AllOf(*children),
            forall|k: int| 0 <= k < i ==> string_with_min(#[trigger] children@[k], min),
        decreases children@.len() - i,
    {
        proof {
            assert(decreases_to!(*schema => schema.kind));
            if schema.kind == SchemaNodeKind::AnyOf(*children) {
                assert(decreases_to!(schema.kind => schema.kind->AnyOf_0));
            } else {
                assert(decreases_to!(schema.kind => schema.kind->AllOf_0));
            }
            assert(decreases_to!(*children => children[i as int]));
        }
        if !is_string_with_min(&children[i], min) {
            return false;
        }
        i = i + 1;
    }
    true
}

/// Whether `schema` is a plain string schema with `minLength: min` (see
/// `string_with_min`).
fn is_string_with_min(schema: &SchemaNode, min: u64) -> (r: bool)
    ensures
        r == string_with_min(*schema, min),
    decreases *schema, 1nat,
{
    match &schema.kind {
        SchemaNodeKind::AnyOf(children) => children.len() > 0 && all_strings_with_min(schema, children, min),
        SchemaNodeKind::AllOf(children) => children.len() > 0 && all_strings_with_min(schema, children, min),
        SchemaNodeKind::String { length, pattern, format, enumeration } => {
            length.min == min && length.max.is_none() && pattern.is_none() && format.is_none() && enumeration.is_none()
        },
        _ => false,
    }
}

/// Whether `schema` accepts the empty string by its shape (see
/// `accepts_empty_string`).
fn schema_accepts_empty_string(schema: &SchemaNode) -> (r: bool)
    ensures
        r == accepts_empty_string(*schema),
    decreases *schema,
{
    match &schema.kind {
        SchemaNodeKind::Any => true,
        SchemaNodeKind::BoolSchema(b) => *b,
        SchemaNodeKind::AnyOf(children) => {
            let mut i: usize = 0;
            while i < children.len()
                invariant
                    i <= children@.len(),
                    schema.kind == SchemaNodeKind::AnyOf(*children),
                    forall|k: int| 0 <= k < i ==> !accepts_empty_string(#[trigger] children@[k]),
                decreases children@.len() - i,
            {
                proof {
                    assert(decreases_to!(*schema => schema.kind));
                    assert(decreases_to!(schema.kind => schema.kind->AnyOf_0));
                    assert(decreases_to!(*children => children[i as int]));
                }
                if schema_accepts_empty_string(&children[i]) {
                    return true;
                }
                i = i + 1;
            }
            false
        },
        SchemaNodeKind::AllOf(children) => {
            let mut i: usize = 0;
            while i < children.len()
                invariant
                    i <= children@.len(),
                    schema.kind == SchemaNodeKind::AllOf(*children),
                    forall|k: int| 0 <= k < i ==> accepts_empty_string(#[trigger] children@[k]),
                decreases children@.len() - i,
            {
                proof {
                    assert(decreases_to!(*schema => schema.kind));
                    assert(decreases_to!(schema.kind => schema.kind->AllOf_0));
                    assert(decreases_to!(*children => children[i as int]));
                }
                if !schema_accepts_empty_string(&children[i]) {
                    return false;
                }
                i = i + 1;
            }
            true
        },
        SchemaNodeKind::IfThenElse { if_schema, else_schema, .. } => {
            let possible = possible_json_type_mask(if_schema);
            proof { crate::bits::lemma_single_bits(JSON_TYPE_STRING, JSON_TYPE_STRING); }
            if possible & JSON_TYPE_STRING != 0 {
                return false;
            }
            match else_schema {
                Some(e) => schema_accepts_empty_string(e),
                None => true,
            }
        },
        SchemaNodeKind::String { length, pattern, format, enumeration } => {
            length.min == 0 && pattern.is_none() && format.is_none() && enumeration.is_none()
        },
        _ => false,
    }
}

/// The test `oneof_string_empty_partition_subset_of` performs.
pub open spec fn string_empty_partition(branches: Seq<SchemaNode>, sup: SchemaNode) -> bool {
    &&& branches.len() == 2
    &&& (string_with_min(branches[0], 0) && string_with_min(branches[1], 1))
        || (string_with_min(branches[1], 0) && string_with_min(branches[0], 1))
    &&& accepts_empty_string(sup)
}

/// Whether `oneOf: branches` is "all strings" xor "nonempty strings" (each
/// arm a plain string schema, through nonempty `anyOf`/`allOf`), whose
/// language is the empty string, and `sup` accepts the empty string by its
/// shape. Then every value of the `oneOf` is accepted by `sup`.
pub fn oneof_string_empty_partition_subset_of(branches: &[SchemaNode], sup: &SchemaNode) -> (r: bool)
    ensures
        r == string_empty_partition(branches@, *sup),
        r ==> forall|v: JsonValue, rx: spec_fn(Seq<char>, Seq<char>) -> bool|
            #[trigger] one_of_accepts(branches@, v, rx) ==> accepts(*sup, v, rx),
{
    if branches.len() != 2 {
        return false;
    }
    let r = ((is_string_with_min(&branches[0], 0) && is_string_with_min(&branches[1], 1))
        || (is_string_with_min(&branches[1], 0) && is_string_with_min(&branches[0], 1)))
        && schema_accepts_empty_string(sup);
    proof {
        assert forall|v: JsonValue, rx: spec_fn(Seq<char>, Seq<char>) -> bool|
            r && #[trigger] one_of_accepts(branches@, v, rx) implies accepts(*sup, v, rx) by {
            lemma_one_of_pair(branches@, v, rx);
            if string_with_min(branches@[0], 0) && string_with_min(branches@[1], 1) {
                lemma_string_with_min(branches@[0], 0, v, rx);
                lemma_string_with_min(branches@[1], 1, v, rx);
            } else {
                lemma_string_with_min(branches@[1], 0, v, rx);
                lemma_string_with_min(branches@[0], 1, v, rx);
            }
            lemma_accepts_empty_string(*sup, v->String_0, rx);
        }
    }
    r
}

/// Whether `s` is, through nonempty `anyOf`/`allOf` wrappers, a plain object
/// schema with `minProperties: min` and no other constraint.
pub open spec fn object_with_min(s: SchemaNode, min: usize) -> bool
    decreases s,
{
    match s.kind {
        SchemaNodeKind::AnyOf(children) => children@.len() > 0
            && forall|i: int| 0 <= i < children@.len() ==> object_with_min(#[trigger] children@[i], min),
        SchemaNodeKind::AllOf(children) => children@.len() > 0
            && forall|i: int| 0 <= i < children@.len() ==> object_with_min(#[trigger] children@[i], min),
        SchemaNodeKind::Object { properties, pattern_properties, required, additional, property_names, property_count,
            dependent_required, enumeration } => {
            &&& properties@.len() == 0
            &&& pattern_properties@.len() == 0
            &&& required@.len() == 0
            &&& trivially_universal(*additional)
            &&& trivially_universal(*property_names)
            &&& property_count.min == min
            &&& property_count.max is None
            &&& dependent_required@.len() == 0
            &&& enumeration is None
        },
        _ => false,
    }
}

/// Whether `s` accepts the empty object by its shape: universal schemas,
/// unions with such a branch, intersections of such conjuncts, conditionals
/// whose guard takes no objects, and object schemas without `required`,
/// `minProperties` or enumeration.
pub open spec fn accepts_empty_object(s: SchemaNode) -> bool
    decreases s,
{
    match s.kind {
        SchemaNodeKind::Any => true,
        SchemaNodeKind::BoolSchema(b) => b,
        SchemaNodeKind::AnyOf(children) => exists|i: int| 0 <= i < children@.len() && accepts_empty_object(#[trigger] children@[i]),
        SchemaNodeKind::AllOf(children) => forall|i: int| 0 <= i < children@.len() ==> accepts_empty_object(#[trigger] children@[i]),
        SchemaNodeKind::IfThenElse { if_schema, else_schema, .. } => !may_have_type(*if_schema, JSON_TYPE_OBJECT)
            && (else_schema matches Some(e) ==> accepts_empty_object(*e)),
        SchemaNodeKind::Object { required, property_count, enumeration, .. } =>
            required@.len() == 0 && property_count.min == 0 && enumeration is None,
        _ => false,
    }
}

/// A plain object schema with `minProperties: min` accepts exactly the
/// objects with at least `min` members.
proof fn lemma_object_with_min(s: SchemaNode, min: usize, v: JsonValue, rx: spec_fn(Seq<char>, Seq<char>) -> bool)
    requires
        object_with_min(s, min),
    ensures
        accepts(s, v, rx) == (v is Object && v->Object_0@.len() >= min),
    decreases s,
{
    match s.kind {
        SchemaNodeKind::AnyOf(children) => {
            assert forall|i: int| 0 <= i < children@.len() implies
                accepts(#[trigger] children@[i], v, rx) == (v is Object && v->Object_0@.len() >= min) by {
                lemma_object_with_min(children@[i], min, v, rx);
            }
            assert(accepts(children@[0], v, rx) == (v is Object && v->Object_0@.len() >= min));
        },
        SchemaNodeKind::AllOf(children) => {
            assert forall|i: int| 0 <= i < children@.len() implies
                accepts(#[trigger] children@[i], v, rx) == (v is Object && v->Object_0@.len() >= min) by {
                lemma_object_with_min(children@[i], min, v, rx);
            }
            assert(accepts(children@[0], v, rx) == (v is Object && v->Object_0@.len() >= min));
        },
        SchemaNodeKind::Object { additional, property_names, .. } => {
            match v {
                JsonValue::Object(members) => {
                    assert forall|i: int| 0 <= i < members@.len() implies accepts(*additional, (#[trigger] members@[i]).1, rx) by {
                        lemma_trivially_universal_accepts(*additional, members@[i].1, rx);
                    }
                    assert forall|i: int| 0 <= i < members@.len()
                        implies accepts(*property_names, JsonValue::String((#[trigger] members@[i]).0), rx) by {
                        lemma_trivially_universal_accepts(*property_names, JsonValue::String(members@[i].0), rx);
                    }
                },
                _ => {},
            }
        },
        _ => {},
    }
}

/// A schema that accepts the empty object by its shape accepts it.
proof fn lemma_accepts_empty_object(s: SchemaNode, members: Vec<(String, JsonValue)>, rx: spec_fn(Seq<char>, Seq<char>) -> bool)
    requires
        accepts_empty_object(s),
        members@.len() == 0,
    ensures
        accepts(s, JsonValue::Object(members), rx),
    decreases s,
{
    let v = JsonValue::Object(members);
    match s.kind {
        SchemaNodeKind::AnyOf(children) => {
            let i = choose|i: int| 0 <= i < children@.len() && accepts_empty_object(#[trigger] children@[i]);
            lemma_accepts_empty_object(children@[i], members, rx);
        },
        SchemaNodeKind::AllOf(children) => {
            assert forall|i: int| 0 <= i < children@.len() implies accepts(#[trigger] children@[i], v, rx) by {
                lemma_accepts_empty_object(children@[i], members, rx);
            }
        },
        SchemaNodeKind::IfThenElse { if_schema, else_schema, .. } => {
            lemma_type_facts_sound(*if_schema, v, rx);
            match else_schema {
                Some(e) => lemma_accepts_empty_object(*e, members, rx),
                None => {},
            }
        },
        _ => {},
    }
}

/// Whether every schema of `children` is a plain object schema with
/// `minProperties: min` (see `object_with_min`).
fn all_objects_with_min(schema: &SchemaNode, children: &Vec<SchemaNode>, min: usize) -> (r: bool)
    requires
        schema.kind == SchemaNodeKind::AnyOf(*children) || schema.kind == SchemaNodeKind::AllOf(*children),
    ensures
        r == forall|i: int| 0 <= i < children@.len() ==> object_with_min(#[trigger] children@[i], min),
    decreases *schema, 0nat,
{
    let mut i: usize = 0;
    while i < children.len()
        invariant
            i <= children@.len(),
            schema.kind == SchemaNodeKind::AnyOf(*children) || schema.kind == SchemaNodeKind::AllOf(*children),
            forall|k: int| 0 <= k < i ==> object_with_min(#[trigger] children@[k], min),
        decreases children@.len() - i,
    {
        proof {
            assert(decreases_to!(*schema => schema.kind));
            if schema.kind == SchemaNodeKind::AnyOf(*children) {
                assert(decreases_to!(schema.kind => schema.kind->AnyOf_0));
            } else {
                assert(decreases_to!(schema.kind => schema.kind->AllOf_0));
            }
            assert(decreases_to!(*children => children[i as int]));
        }
        if !is_object_with_min(&children[i], min) {
            return false;
        }
        i = i + 1;
    }
    true
}

/// Whether `schema` is a plain object schema with `minProperties: min` (see
/// `object_with_min`).
fn is_object_with_min(schema: &SchemaNode, min: usize) -> (r: bool)
    ensures
        r == object_with_min(*schema, min),
    decreases *schema, 1nat,
{
    match &schema.kind {
        SchemaNodeKind::AnyOf(children) => children.len() > 0 && all_objects_with_min(schema, children, min),
        SchemaNodeKind::AllOf(children) => children.len() > 0 && all_objects_with_min(schema, children, min),
        SchemaNodeKind::Object { properties, pattern_properties, required, additional, property_names, property_count,
            dependent_required, enumeration } => {
            properties.len() == 0 && pattern_properties.len() == 0 && required.len() == 0
                && schema_is_trivially_universal(additional) && schema_is_trivially_universal(property_names)
                && property_count.min == min && property_count.max.is_none() && dependent_required.len() == 0
                && enumeration.is_none()
        },
        _ => false,
    }
}

/// Whether `schema` accepts the empty object by its shape (see
/// `accepts_empty_object`).
fn schema_accepts_empty_object(schema: &SchemaNode) -> (r: bool)
    ensures
        r == accepts_empty_object(*schema),
    decreases *schema,
{
    match &schema.kind {
        SchemaNodeKind::Any => true,
        SchemaNodeKind::BoolSchema(b) => *b,
        SchemaNodeKind::AnyOf(children) => {
            let mut i: usize = 0;
            while i < children.len()
                invariant
                    i <= children@.len(),
                    schema.kind == SchemaNodeKind::AnyOf(*children),
                    forall|k: int| 0 <= k < i ==> !accepts_empty_object(#[trigger] children@[k]),
                decreases children@.len() - i,
            {
                proof {
                    assert(decreases_to!(*schema => schema.kind));
                    assert(decreases_to!(schema.kind => schema.kind->AnyOf_0));
                    assert(decreases_to!(*children => children[i as int]));
                }
                if schema_accepts_empty_object(&children[i]) {
                    return true;
                }
                i = i + 1;
            }
            false
        },
        SchemaNodeKind::AllOf(children) => {
            let mut i: usize = 0;
            while i < children.len()
                invariant
                    i <= children@.len(),
                    schema.kind == SchemaNodeKind::AllOf(*children),
                    forall|k: int| 0 <= k < i ==> accepts_empty_object(#[trigger] children@[k]),
                decreases children@.len() - i,
            {
                proof {
                    assert(decreases_to!(*schema => schema.kind));
                    assert(decreases_to!(schema.kind => schema.kind->AllOf_0));
                    assert(decreases_to!(*children => children[i as int]));
                }
                if !schema_accepts_empty_object(&children[i]) {
                    return false;
                }
                i = i + 1;
            }
            true
        },
        SchemaNodeKind::IfThenElse { if_schema, else_schema, .. } => {
            let possible = possible_json_type_mask(if_schema);
            proof { crate::bits::lemma_single_bits(JSON_TYPE_OBJECT, JSON_TYPE_OBJECT); }
            if possible & JSON_TYPE_OBJECT != 0 {
                return false;
            }
            match else_schema {
                Some(e) => schema_accepts_empty_object(e),
                None => true,
            }
        },
        SchemaNodeKind::Object { required, property_count, enumeration, .. } => {
            required.len() == 0 && property_count.min == 0 && enumeration.is_none()
        },
        _ => false,
    }
}

/// The test `oneof_object_empty_partition_subset_of` performs.
pub open spec fn object_empty_partition(branches: Seq<SchemaNode>, sup: SchemaNode) -> bool {
    &&& branches.len() == 2
    &&& (object_with_min(branches[0], 0) && object_with_min(branches[1], 1))
        || (object_with_min(branches[1], 0) && object_with_min(branches[0], 1))
    &&& accepts_empty_object(sup)
}

/// Whether `oneOf: branches` is "all objects" xor "nonempty objects" (each
/// arm a plain object schema, through nonempty `anyOf`/`allOf`), whose
/// language is the empty object, and `sup` accepts the empty object by its
/// shape. Then every value of the `oneOf` is accepted by `sup`.
pub fn oneof_object_empty_partition_subset_of(branches: &[SchemaNode], sup: &SchemaNode) -> (r: bool)
    ensures
        r == object_empty_partition(branches@, *sup),
        r ==> forall|v: JsonValue, rx: spec_fn(Seq<char>, Seq<char>) -> bool|
            #[trigger] one_of_accepts(branches@, v, rx) ==> accepts(*sup, v, rx),
{
    if branches.len() != 2 {
        return false;
    }
    let r = ((is_object_with_min(&branches[0], 0) && is_object_with_min(&branches[1], 1))
        || (is_object_with_min(&branches[1], 0) && is_object_with_min(&branches[0], 1)))
        && schema_accepts_empty_object(sup);
    proof {
        assert forall|v: JsonValue, rx: spec_fn(Seq<char>, Seq<char>) -> bool|
            r && #[trigger] one_of_accepts(branches@, v, rx) implies accepts(*sup, v, rx) by {
            lemma_one_of_pair(branches@, v, rx);
            if object_with_min(branches@[0], 0) && object_with_min(branches@[1], 1) {
                lemma_object_with_min(branches@[0], 0, v, rx);
                lemma_object_with_min(branches@[1], 1, v, rx);
            } else {
                lemma_object_with_min(branches@[1], 0, v, rx);
                lemma_object_with_min(branches@[0], 1, v, rx);
            }
            lemma_accepts_empty_object(*sup, v->Object_0, rx);
        }
    }
    r
}

/// Whether `s` is, through nonempty `anyOf`/`allOf` wrappers, a plain array
/// schema with `minItems: min`, unconstrained items and no other keyword.
pub open spec fn array_with_min(s: SchemaNode, min: u64) -> bool
    decreases s,
{
    match s.kind {
        SchemaNodeKind::AnyOf(children) => children@.len() > 0
            && forall|i: int| 0 <= i < children@.len() ==> array_with_min(#[trigger] children@[i], min),
        SchemaNodeKind::AllOf(children) => children@.len() > 0
            && forall|i: int| 0 <= i < children@.len() ==> array_with_min(#[trigger] children@[i], min),
        SchemaNodeKind::Array { prefix_items, items, item_count, contains, unique_items, enumeration } => {
            &&& prefix_items@.len() == 0
            &&& trivially_universal(*items)
            &&& item_count.min == min
            &&& item_count.max is None
            &&& contains is None
            &&& !unique_items
            &&& enumeration is None
        },
        _ => false,
    }
}

/// Whether `s` accepts the empty array by its shape: universal schemas,
/// unions with such a branch, intersections of such conjuncts, conditionals
/// whose guard takes no arrays, and array schemas without `minItems`, a
/// positive `minContains` or enumeration.
pub open spec fn accepts_empty_array(s: SchemaNode) -> bool
    decreases s,
{
    match s.kind {
        SchemaNodeKind::Any => true,
        SchemaNodeKind::BoolSchema(b) => b,
        SchemaNodeKind::AnyOf(children) => exists|i: int| 0 <= i < children@.len() && accepts_empty_array(#[trigger] children@[i]),
        SchemaNodeKind::AllOf(children) => forall|i: int| 0 <= i < children@.len() ==> accepts_empty_array(#[trigger] children@[i]),
        SchemaNodeKind::IfThenElse { if_schema, else_schema, .. } => !may_have_type(*if_schema, JSON_TYPE_ARRAY)
            && (else_schema matches Some(e) ==> accepts_empty_array(*e)),
        SchemaNodeKind::Array { item_count, contains, enumeration, .. } =>
            item_count.min == 0 && (contains matches Some(c) ==> c.count.min == 0) && enumeration is None,
        _ => false,
    }
}

/// A plain array schema with `minItems: min` accepts exactly the arrays of
/// at least `min` items.
proof fn lemma_array_with_min(s: SchemaNode, min: u64, v: JsonValue, rx: spec_fn(Seq<char>, Seq<char>) -> bool)
    requires
        array_with_min(s, min),
    ensures
        accepts(s, v, rx) == (v is Array && v->Array_0@.len() >= min),
    decreases s,
{
    match s.kind {
        SchemaNodeKind::AnyOf(children) => {
            assert forall|i: int| 0 <= i < children@.len() implies
                accepts(#[trigger] children@[i], v, rx) == (v is Array && v->Array_0@.len() >= min) by {
                lemma_array_with_min(children@[i], min, v, rx);
            }
            assert(accepts(children@[0], v, rx) == (v is Array && v->Array_0@.len() >= min));
        },
        SchemaNodeKind::AllOf(children) => {
            assert forall|i: int| 0 <= i < children@.len() implies
                accepts(#[trigger] children@[i], v, rx) == (v is Array && v->Array_0@.len() >= min) by {
                lemma_array_with_min(children@[i], min, v, rx);
            }
            assert(accepts(children@[0], v, rx) == (v is Array && v->Array_0@.len() >= min));
        },
        SchemaNodeKind::Array { items, .. } => {
            match v {
                JsonValue::Array(values) => {
                    assert forall|i: int| 0 <= i < values@.len() implies accepts(*items, #[trigger] values@[i], rx) by {
                        lemma_trivially_universal_accepts(*items, values@[i], rx);
                    }
                },
                _ => {},
            }
        },
        _ => {},
    }
}

/// A schema that accepts the empty array by its shape accepts it.
proof fn lemma_accepts_empty_array(s: SchemaNode, values: Vec<JsonValue>, rx: spec_fn(Seq<char>, Seq<char>) -> bool)
    requires
        accepts_empty_array(s),
        values@.len() == 0,
    ensures
        accepts(s, JsonValue::Array(values), rx),
    decreases s,
{
    let v = JsonValue::Array(values);
    match s.kind {
        SchemaNodeKind::AnyOf(children) => {
            let i = choose|i: int| 0 <= i < children@.len() && accepts_empty_array(#[trigger] children@[i]);
            lemma_accepts_empty_array(children@[i], values, rx);
        },
        SchemaNodeKind::AllOf(children) => {
            assert forall|i: int| 0 <= i < children@.len() implies accepts(#[trigger] children@[i], v, rx) by {
                lemma_accepts_empty_array(children@[i], values, rx);
            }
        },
        SchemaNodeKind::IfThenElse { if_schema, else_schema, .. } => {
            lemma_type_facts_sound(*if_schema, v, rx);
            match else_schema {
                Some(e) => lemma_accepts_empty_array(*e, values, rx),
                None => {},
            }
        },
        SchemaNodeKind::Array { contains, .. } => {
            match contains {
                Some(c) => {
                    assert(matching_count(*c.schema, values@, rx) == 0);
                },
                None => {},
            }
        },
        _ => {},
    }
}

/// Whether every schema of `children` is a plain array schema with
/// `minItems: min` (see `array_with_min`).
fn all_arrays_with_min(schema: &SchemaNode, children: &Vec<SchemaNode>, min: u64) -> (r: bool)
    requires
        schema.kind == SchemaNodeKind::AnyOf(*children) || schema.kind == SchemaNodeKind::AllOf(*children),
    ensures
        r == forall|i: int| 0 <= i < children@.len() ==> array_with_min(#[trigger] children@[i], min),
    decreases *schema, 0nat,
{
    let mut i: usize = 0;
    while i < children.len()
        invariant
            i <= children@.len(),
            schema.kind == SchemaNodeKind::AnyOf(*children) || schema.kind == SchemaNodeKind::AllOf(*children),
            forall|k: int| 0 <= k < i ==> array_with_min(#[trigger] children@[k], min),
        decreases children@.len() - i,
    {
        proof {
            assert(decreases_to!(*schema => schema.kind));
            if schema.kind == SchemaNodeKind::AnyOf(*children) {
                assert(decreases_to!(schema.kind => schema.kind->AnyOf_0));
            } else {
                assert(decreases_to!(schema.kind => schema.kind->AllOf_0));
            }
            assert(decreases_to!(*children => children[i as int]));
        }
        if !is_array_with_min(&children[i], min) {
            return false;
        }
        i = i + 1;
    }
    true
}

/// Whether `schema` is a plain array schema with `minItems: min` (see
/// `array_with_min`).
fn is_array_with_min(schema: &SchemaNode, min: u64) -> (r: bool)
    ensures
        r == array_with_min(*schema, min),
    decreases *schema, 1nat,
{
    match &schema.kind {
        SchemaNodeKind::AnyOf(children) => children.len() > 0 && all_arrays_with_min(schema, children, min),
        SchemaNodeKind::AllOf(children) => children.len() > 0 && all_arrays_with_min(schema, children, min),
        SchemaNodeKind::Array { prefix_items, items, item_count, contains, unique_items, enumeration } => {
            prefix_items.len() == 0 && schema_is_trivially_universal(items) && item_count.min == min
                && item_count.max.is_none() && contains.is_none() && !*unique_items && enumeration.is_none()
        },
        _ => false,
    }
}

/// Whether `schema` accepts the empty array by its shape (see
/// `accepts_empty_array`).
fn schema_accepts_empty_array(schema: &SchemaNode) -> (r: bool)
    ensures
        r == accepts_empty_array(*schema),
    decreases *schema,
{
    match &schema.kind {
        SchemaNodeKind::Any => true,
        SchemaNodeKind::BoolSchema(b) => *b,
        SchemaNodeKind::AnyOf(children) => {
            let mut i: usize = 0;
            while i < children.len()
                invariant
                    i <= children@.len(),
                    schema.kind == SchemaNodeKind::AnyOf(*children),
                    forall|k: int| 0 <= k < i ==> !accepts_empty_array(#[trigger] children@[k]),
                decreases children@.len() - i,
            {
                proof {
                    assert(decreases_to!(*schema => schema.kind));
                    assert(decreases_to!(schema.kind => schema.kind->AnyOf_0));
                    assert(decreases_to!(*children => children[i as int]));
                }
                if schema_accepts_empty_array(&children[i]) {
                    return true;
                }
                i = i + 1;
            }
            false
        },
        SchemaNodeKind::AllOf(children) => {
            let mut i: usize = 0;
            while i < children.len()
                invariant
                    i <= children@.len(),
                    schema.kind == SchemaNodeKind::AllOf(*children),
                    forall|k: int| 0 <= k < i ==> accepts_empty_array(#[trigger] children@[k]),
                decreases children@.len() - i,
            {
                proof {
                    assert(decreases_to!(*schema => schema.kind));
                    assert(decreases_to!(schema.kind => schema.kind->AllOf_0));
                    assert(decreases_to!(*children => children[i as int]));
                }
                if !schema_accepts_empty_array(&children[i]) {
                    return false;
                }
                i = i + 1;
            }
            true
        },
        SchemaNodeKind::IfThenElse { if_schema, else_schema, .. } => {
            let possible = possible_json_type_mask(if_schema);
            proof { crate::bits::lemma_single_bits(JSON_TYPE_ARRAY, JSON_TYPE_ARRAY); }
            if possible & JSON_TYPE_ARRAY != 0 {
                return false;
            }
            match else_schema {
                Some(e) => schema_accepts_empty_array(e),
                None => true,
            }
        },
        SchemaNodeKind::Array { item_count, contains, enumeration, .. } => {
            item_count.min == 0 && match contains {
                Some(c) => c.count.min == 0,
                None => true,
            } && enumeration.is_none()
        },
        _ => false,
    }
}

/// The test `oneof_array_empty_partition_subset_of` performs.
pub open spec fn array_empty_partition(branches: Seq<SchemaNode>, sup: SchemaNode) -> bool {
    &&& branches.len() == 2
    &&& (array_with_min(branches[0], 0) && array_with_min(branches[1], 1))
        || (array_with_min(branches[1], 0) && array_with_min(branches[0], 1))
    &&& accepts_empty_array(sup)
}

/// Whether `oneOf: branches` is "all arrays" xor "nonempty arrays" (each
/// arm a plain array schema, through nonempty `anyOf`/`allOf`), whose
/// language is the empty array, and `sup` accepts the empty array by its
/// shape. Then every value of the `oneOf` is accepted by `sup`.
pub fn oneof_array_empty_partition_subset_of(branches: &[SchemaNode], sup: &SchemaNode) -> (r: bool)
    ensures
        r == array_empty_partition(branches@, *sup),
        r ==> forall|v: JsonValue, rx: spec_fn(Seq<char>, Seq<char>) -> bool|
            #[trigger] one_of_accepts(branches@, v, rx) ==> accepts(*sup, v, rx),
{
    if branches.len() != 2 {
        return false;
    }
    let r = ((is_array_with_min(&branches[0], 0) && is_array_with_min(&branches[1], 1))
        || (is_array_with_min(&branches[1], 0) && is_array_with_min(&branches[0], 1)))
        && schema_accepts_empty_array(sup);
    proof {
        assert forall|v: JsonValue, rx: spec_fn(Seq<char>, Seq<char>) -> bool|
            r && #[trigger] one_of_accepts(branches@, v, rx) implies accepts(*sup, v, rx) by {
            lemma_one_of_pair(branches@, v, rx);
            if array_with_min(branches@[0], 0) && array_with_min(branches@[1], 1) {
                lemma_array_with_min(branches@[0], 0, v, rx);
                lemma_array_with_min(branches@[1], 1, v, rx);
            } else {
                lemma_array_with_min(branches@[1], 0, v, rx);
                lemma_array_with_min(branches@[0], 1, v, rx);
            }
            lemma_accepts_empty_array(*sup, v->Array_0, rx);
        }
    }
    r
}

/// The property whose presence `s` requires and nothing else, through
/// wrappers: an object schema requiring exactly that name and otherwise
/// unconstrained (its `properties` only the name, with universal schemas;
/// `minProperties` at most 1; `dependentRequired` only forcing the name);
/// an `anyOf` whose branches all require one name; an `allOf` with exactly
/// one such conjunct, the others accepting all objects.
pub open spec fn presence_name(s: SchemaNode) -> Option<Seq<char>>
    decreases s, 0nat,
{
    match s.kind {
        SchemaNodeKind::AnyOf(children) => if children@.len() > 0 && presence_name(children@[0]) is Some
            && forall|i: int| 1 <= i < children@.len() ==> presence_name(#[trigger] children@[i]) == presence_name(children@[0]) {
            presence_name(children@[0])
        } else {
            None
        },
        SchemaNodeKind::AllOf(children) => match allof_presence(children@, children@.len()) {
            Some(Some(name)) => Some(name),
            _ => None,
        },
        SchemaNodeKind::Object { properties, pattern_properties, required, additional, property_names, property_count,
            dependent_required, enumeration } => {
            if required@.len() == 1 && {
                let name = required@[0]@;
                &&& forall|k: int| 0 <= k < properties@.len() ==> (#[trigger] properties@[k]).0@ == name
                    && trivially_universal(properties@[k].1)
                &&& pattern_properties@.len() == 0
                &&& trivially_universal(*additional)
                &&& trivially_universal(*property_names)
                &&& property_count.min <= 1
                &&& property_count.max is None
                &&& forall|d: int, k: int| 0 <= d < dependent_required@.len() && 0 <= k < dependent_required@[d].1@.len()
                    ==> (#[trigger] dependent_required@[d].1@[k])@ == name
                &&& enumeration is None
            } {
                Some(required@[0]@)
            } else {
                None
            }
        },
        _ => None,
    }
}

/// The `allOf` fold of `presence_name` over the first `n` conjuncts: `None`
/// when a conjunct neither requires a name nor accepts all objects, or when
/// two conjuncts require names; otherwise the name found, if any.
pub open spec fn allof_presence(children: Seq<SchemaNode>, n: nat) -> Option<Option<Seq<char>>>
    decreases children, n,
{
    if n == 0 || n > children.len() {
        Some(None)
    } else {
        match allof_presence(children, (n - 1) as nat) {
            None => None,
            Some(found) => match presence_name(children[n - 1]) {
                Some(name) => if found is Some { None } else { Some(Some(name)) },
                None => if object_with_min(children[n - 1], 0) { Some(found) } else { None },
            },
        }
    }
}

/// Whether `s` accepts, by its shape, every object without the property
/// `name`: universal schemas, unions with such a branch, intersections of
/// such conjuncts, conditionals whose guard takes no objects, and object
/// schemas that mention only `name` (in `properties` and as a
/// `dependentRequired` trigger) and are otherwise unconstrained.
pub open spec fn accepts_all_without(s: SchemaNode, name: Seq<char>) -> bool
    decreases s,
{
    match s.kind {
        SchemaNodeKind::Any => true,
        SchemaNodeKind::BoolSchema(b) => b,
        SchemaNodeKind::AnyOf(children) => exists|i: int| 0 <= i < children@.len() && accepts_all_without(#[trigger] children@[i], name),
        SchemaNodeKind::AllOf(children) => forall|i: int| 0 <= i < children@.len() ==> accepts_all_without(#[trigger] children@[i], name),
        SchemaNodeKind::IfThenElse { if_schema, else_schema, .. } => !may_have_type(*if_schema, JSON_TYPE_OBJECT)
            && (else_schema matches Some(e) ==> accepts_all_without(*e, name)),
        SchemaNodeKind::Object { properties, pattern_properties, required, additional, property_names, property_count,
            dependent_required, enumeration } => {
            &&& required@.len() == 0
            &&& forall|k: int| 0 <= k < properties@.len() ==> (#[trigger] properties@[k]).0@ == name
            &&& pattern_properties@.len() == 0
            &&& trivially_universal(*additional)
            &&& trivially_universal(*property_names)
            &&& property_count.min == 0
            &&& property_count.max is None
            &&& forall|d: int| 0 <= d < dependent_required@.len() ==> (#[trigger] dependent_required@[d]).0@ == name
            &&& enumeration is None
        },
        _ => false,
    }
}

/// A schema requiring exactly the property `name` accepts exactly the
/// objects that have it.
proof fn lemma_presence_name(s: SchemaNode, v: JsonValue, rx: spec_fn(Seq<char>, Seq<char>) -> bool)
    requires
        presence_name(s) is Some,
    ensures
        accepts(s, v, rx) == (v is Object && members_have_key(v->Object_0@, presence_name(s)->0)),
    decreases s, 0nat,
{
    let name = presence_name(s)->0;
    match s.kind {
        SchemaNodeKind::AnyOf(children) => {
            assert forall|i: int| 0 <= i < children@.len() implies
                accepts(#[trigger] children@[i], v, rx) == (v is Object && members_have_key(v->Object_0@, name)) by {
                if i > 0 {
                    assert(presence_name(children@[i]) == presence_name(children@[0]));
                }
                lemma_presence_name(children@[i], v, rx);
            }
            assert(accepts(children@[0], v, rx) == (v is Object && members_have_key(v->Object_0@, name)));
        },
        SchemaNodeKind::AllOf(children) => {
            assert(decreases_to!(s => s.kind));
            lemma_allof_presence(children@, children@.len(), v, rx);
        },
        SchemaNodeKind::Object { properties, additional, property_names, required, .. } => {
            match v {
                JsonValue::Object(members) => {
                    assert forall|i: int, j: int| 0 <= i < members@.len() && 0 <= j < properties@.len()
                        && (#[trigger] members@[i]).0@ == (#[trigger] properties@[j]).0@
                        implies accepts(properties@[j].1, members@[i].1, rx) by {
                        lemma_trivially_universal_accepts(properties@[j].1, members@[i].1, rx);
                    }
                    assert forall|i: int| 0 <= i < members@.len() implies accepts(*additional, (#[trigger] members@[i]).1, rx) by {
                        lemma_trivially_universal_accepts(*additional, members@[i].1, rx);
                    }
                    assert forall|i: int| 0 <= i < members@.len()
                        implies accepts(*property_names, JsonValue::String((#[trigger] members@[i]).0), rx) by {
                        lemma_trivially_universal_accepts(*property_names, JsonValue::String(members@[i].0), rx);
                    }
                    if members_have_key(members@, name) {
                        let i = choose|i: int| 0 <= i < members@.len() && (#[trigger] members@[i]).0@ == name;
                        assert(members@.len() >= 1);
                    }
                    assert(required@[0]@ == name);
                    if accepts(s, v, rx) {
                        assert(members_have_key(members@, required@[0]@));
                    }
                },
                _ => {},
            }
        },
        _ => {},
    }
}

/// The `allOf` fold is sound: the conjuncts together accept exactly the
/// objects with the name found (or all objects when none was found).
proof fn lemma_allof_presence(children: Seq<SchemaNode>, n: nat, v: JsonValue, rx: spec_fn(Seq<char>, Seq<char>) -> bool)
    requires
        n <= children.len(),
        allof_presence(children, n) is Some,
    ensures
        match allof_presence(children, n)->0 {
            Some(name) => (forall|i: int| 0 <= i < n ==> accepts(#[trigger] children[i], v, rx))
                == (v is Object && members_have_key(v->Object_0@, name)),
            None => (forall|i: int| 0 <= i < n ==> accepts(#[trigger] children[i], v, rx)) == (n == 0 || v is Object),
        },
    decreases children, n,
{
    if n > 0 {
        lemma_allof_presence(children, (n - 1) as nat, v, rx);
        let c = children[n - 1];
        if presence_name(c) is Some {
            lemma_presence_name(c, v, rx);
        } else {
            lemma_object_with_min(c, 0, v, rx);
        }
        assert((forall|i: int| 0 <= i < n ==> accepts(#[trigger] children[i], v, rx))
            == ((forall|i: int| 0 <= i < n - 1 ==> accepts(#[trigger] children[i], v, rx)) && accepts(c, v, rx)));
    }
}

/// A schema that accepts every object without `name` by its shape accepts
/// each of them.
proof fn lemma_accepts_all_without(s: SchemaNode, name: Seq<char>, members: Vec<(String, JsonValue)>, rx: spec_fn(Seq<char>, Seq<char>) -> bool)
    requires
        accepts_all_without(s, name),
        !members_have_key(members@, name),
    ensures
        accepts(s, JsonValue::Object(members), rx),
    decreases s,
{
    let v = JsonValue::Object(members);
    match s.kind {
        SchemaNodeKind::AnyOf(children) => {
            let i = choose|i: int| 0 <= i < children@.len() && accepts_all_without(#[trigger] children@[i], name);
            lemma_accepts_all_without(children@[i], name, members, rx);
        },
        SchemaNodeKind::AllOf(children) => {
            assert forall|i: int| 0 <= i < children@.len() implies accepts(#[trigger] children@[i], v, rx) by {
                lemma_accepts_all_without(children@[i], name, members, rx);
            }
        },
        SchemaNodeKind::IfThenElse { if_schema, else_schema, .. } => {
            lemma_type_facts_sound(*if_schema, v, rx);
            match else_schema {
                Some(e) => lemma_accepts_all_without(*e, name, members, rx),
                None => {},
            }
        },
        SchemaNodeKind::Object { properties, additional, property_names, dependent_required, .. } => {
            assert forall|i: int, j: int| 0 <= i < members@.len() && 0 <= j < properties@.len()
                && (#[trigger] members@[i]).0@ == (#[trigger] properties@[j]).0@
                implies accepts(properties@[j].1, members@[i].1, rx) by {
                assert(members@[i].0@ == name);
            }
            assert forall|i: int| 0 <= i < members@.len() implies accepts(*additional, (#[trigger] members@[i]).1, rx) by {
                lemma_trivially_universal_accepts(*additional, members@[i].1, rx);
            }
            assert forall|i: int| 0 <= i < members@.len()
                implies accepts(*property_names, JsonValue::String((#[trigger] members@[i]).0), rx) by {
                lemma_trivially_universal_accepts(*property_names, JsonValue::String(members@[i].0), rx);
            }
            assert(dependencies_ok(dependent_required@, members@));
        },
        _ => {},
    }
}

/// Whether every `properties` entry is for `name` (and, when
/// `universal_values`, has a trivially universal schema).
pub(crate) fn properties_only_name(properties: &Vec<(String, SchemaNode)>, name: &str, universal_values: bool) -> (r: bool)
    ensures
        r == forall|k: int| 0 <= k < properties@.len() ==> (#[trigger] properties@[k]).0@ == name@
            && (universal_values ==> trivially_universal(properties@[k].1)),
{
    let mut k: usize = 0;
    while k < properties.len()
        invariant
            k <= properties@.len(),
            forall|j: int| 0 <= j < k ==> (#[trigger] properties@[j]).0@ == name@
                && (universal_values ==> trivially_universal(properties@[j].1)),
        decreases properties@.len() - k,
    {
        if !str_eq(properties[k].0.as_str(), name) || (universal_values && !schema_is_trivially_universal(&properties[k].1)) {
            return false;
        }
        k = k + 1;
    }
    true
}

/// Whether every `dependentRequired` rule forces only `name`.
pub(crate) fn dependencies_force_only(dependent_required: &Vec<(String, Vec<String>)>, name: &str) -> (r: bool)
    ensures
        r == forall|d: int, k: int| 0 <= d < dependent_required@.len() && 0 <= k < dependent_required@[d].1@.len()
            ==> (#[trigger] dependent_required@[d].1@[k])@ == name@,
{
    let mut d: usize = 0;
    while d < dependent_required.len()
        invariant
            d <= dependent_required@.len(),
            forall|e: int, j: int| 0 <= e < d && 0 <= j < dependent_required@[e].1@.len()
                ==> (#[trigger] dependent_required@[e].1@[j])@ == name@,
        decreases dependent_required@.len() - d,
    {
        let deps = &dependent_required[d].1;
        let mut j: usize = 0;
        while j < deps.len()
            invariant
                j <= deps@.len(),
                d < dependent_required@.len(),
                *deps == dependent_required@[d as int].1,
                forall|t: int| 0 <= t < j ==> (#[trigger] deps@[t])@ == name@,
            decreases deps@.len() - j,
        {
            if !str_eq(deps[j].as_str(), name) {
                proof {
                    assert((dependent_required@[d as int].1@[j as int])@ != name@);
                }
                return false;
            }
            j = j + 1;
        }
        d = d + 1;
    }
    true
}

/// Whether every `dependentRequired` rule is triggered by `name`.
pub(crate) fn dependencies_triggered_only_by(dependent_required: &Vec<(String, Vec<String>)>, name: &str) -> (r: bool)
    ensures
        r == forall|d: int| 0 <= d < dependent_required@.len() ==> (#[trigger] dependent_required@[d]).0@ == name@,
{
    let mut d: usize = 0;
    while d < dependent_required.len()
        invariant
            d <= dependent_required@.len(),
            forall|j: int| 0 <= j < d ==> (#[trigger] dependent_required@[j]).0@ == name@,
        decreases dependent_required@.len() - d,
    {
        if !str_eq(dependent_required[d].0.as_str(), name) {
            return false;
        }
        d = d + 1;
    }
    true
}

/// Whether `schema` requires exactly one property name and nothing else
/// (see `presence_name`).
fn presence_name_of(schema: &SchemaNode) -> (r: Option<&str>)
    ensures
        match r {
            Some(name) => presence_name(*schema) == Some(name@),
            None => presence_name(*schema) is None,
        },
    decreases *schema, 1nat,
{
    match &schema.kind {
        SchemaNodeKind::AnyOf(children) => {
            if children.len() == 0 {
                return None;
            }
            proof {
                assert(decreases_to!(*schema => schema.kind));
                assert(decreases_to!(schema.kind => schema.kind->AnyOf_0));
                assert(decreases_to!(*children => children[0]));
            }
            let name = match presence_name_of(&children[0]) {
                Some(n) => n,
                None => return None,
            };
            let mut i: usize = 1;
            while i < children.len()
                invariant
                    1 <= i <= children@.len(),
                    schema.kind == SchemaNodeKind::AnyOf(*children),
                    presence_name(children@[0]) == Some(name@),
                    forall|k: int| 1 <= k < i ==> presence_name(#[trigger] children@[k]) == presence_name(children@[0]),
                decreases children@.len() - i,
            {
                proof {
                    assert(decreases_to!(*schema => schema.kind));
                    assert(decreases_to!(schema.kind => schema.kind->AnyOf_0));
                    assert(decreases_to!(*children => children[i as int]));
                }
                match presence_name_of(&children[i]) {
                    Some(other) => {
                        if !str_eq(other, name) {
                            return None;
                        }
                    },
                    None => return None,
                }
                i = i + 1;
            }
            Some(name)
        },
        SchemaNodeKind::AllOf(children) => {
            let mut found: Option<&str> = None;
            let mut i: usize = 0;
            while i < children.len()
                invariant
                    i <= children@.len(),
                    schema.kind == SchemaNodeKind::AllOf(*children),
                    allof_presence(children@, i as nat) == Some(match found { Some(n) => Some(n@), None => None }),
                decreases children@.len() - i,
            {
                proof {
                    assert(decreases_to!(*schema => schema.kind));
                    assert(decreases_to!(schema.kind => schema.kind->AllOf_0));
                    assert(decreases_to!(*children => children[i as int]));
                }
                match presence_name_of(&children[i]) {
                    Some(name) => {
                        if found.is_some() {
                            proof { lemma_allof_presence_none_persists(children@, (i + 1) as nat, children@.len()); }
                            return None;
                        }
                        found = Some(name);
                    },
                    None => {
                        if !is_object_with_min(&children[i], 0) {
                            proof { lemma_allof_presence_none_persists(children@, (i + 1) as nat, children@.len()); }
                            return None;
                        }
                    },
                }
                i = i + 1;
            }
            found
        },
        SchemaNodeKind::Object { properties, pattern_properties, required, additional, property_names, property_count,
            dependent_required, enumeration } => {
            if required.len() != 1 {
                return None;
            }
            let name = required[0].as_str();
            if !properties_only_name(properties, name, true) || !dependencies_force_only(dependent_required, name) {
                return None;
            }
            if pattern_properties.len() == 0 && schema_is_trivially_universal(additional)
                && schema_is_trivially_universal(property_names) && property_count.min <= 1
                && property_count.max.is_none() && enumeration.is_none() {
                Some(name)
            } else {
                None
            }
        },
        _ => None,
    }
}

/// Once the `allOf` presence fold has failed, it stays failed.
proof fn lemma_allof_presence_none_persists(children: Seq<SchemaNode>, n: nat, m: nat)
    requires
        n <= m <= children.len(),
        allof_presence(children, n) is None,
    ensures
        allof_presence(children, m) is None,
    decreases m - n,
{
    if n < m {
        lemma_allof_presence_none_persists(children, n, (m - 1) as nat);
    }
}

/// Whether `schema` accepts every object without `name` by its shape (see
/// `accepts_all_without`).
fn schema_accepts_all_without(schema: &SchemaNode, name: &str) -> (r: bool)
    ensures
        r == accepts_all_without(*schema, name@),
    decreases *schema,
{
    match &schema.kind {
        SchemaNodeKind::Any => true,
        SchemaNodeKind::BoolSchema(b) => *b,
        SchemaNodeKind::AnyOf(children) => {
            let mut i: usize = 0;
            while i < children.len()
                invariant
                    i <= children@.len(),
                    schema.kind == SchemaNodeKind::AnyOf(*children),
                    forall|k: int| 0 <= k < i ==> !accepts_all_without(#[trigger] children@[k], name@),
                decreases children@.len() - i,
            {
                proof {
                    assert(decreases_to!(*schema => schema.kind));
                    assert(decreases_to!(schema.kind => schema.kind->AnyOf_0));
                    assert(decreases_to!(*children => children[i as int]));
                }
                if schema_accepts_all_without(&children[i], name) {
                    return true;
                }
                i = i + 1;
            }
            false
        },
        SchemaNodeKind::AllOf(children) => {
            let mut i: usize = 0;
            while i < children.len()
                invariant
                    i <= children@.len(),
                    schema.kind == SchemaNodeKind::AllOf(*children),
                    forall|k: int| 0 <= k < i ==> accepts_all_without(#[trigger] children@[k], name@),
                decreases children@.len() - i,
            {
                proof {
                    assert(decreases_to!(*schema => schema.kind));
                    assert(decreases_to!(schema.kind => schema.kind->AllOf_0));
                    assert(decreases_to!(*children => children[i as int]));
                }
                if !schema_accepts_all_without(&children[i], name) {
                    return false;
                }
                i = i + 1;
            }
            true
        },
        SchemaNodeKind::IfThenElse { if_schema, else_schema, .. } => {
            let possible = possible_json_type_mask(if_schema);
            proof { crate::bits::lemma_single_bits(JSON_TYPE_OBJECT, JSON_TYPE_OBJECT); }
            if possible & JSON_TYPE_OBJECT != 0 {
                return false;
            }
            match else_schema {
                Some(e) => schema_accepts_all_without(e, name),
                None => true,
            }
        },
        SchemaNodeKind::Object { properties, pattern_properties, required, additional, property_names, property_count,
            dependent_required, enumeration } => {
            if !properties_only_name(properties, name, false) || !dependencies_triggered_only_by(dependent_required, name) {
                return false;
            }
            required.len() == 0 && pattern_properties.len() == 0 && schema_is_trivially_universal(additional)
                && schema_is_trivially_universal(property_names) && property_count.min == 0
                && property_count.max.is_none() && enumeration.is_none()
        },
        _ => false,
    }
}

/// The name `oneof_object_absence_partition_subset_of` splits on: the
/// presence name of one branch when the other accepts all objects.
pub open spec fn absence_partition_name(branches: Seq<SchemaNode>) -> Option<Seq<char>> {
    if object_with_min(branches[0], 0) {
        presence_name(branches[1])
    } else if object_with_min(branches[1], 0) {
        presence_name(branches[0])
    } else {
        None
    }
}

/// The test `oneof_object_absence_partition_subset_of` performs.
pub open spec fn object_absence_partition(branches: Seq<SchemaNode>, sup: SchemaNode) -> bool {
    &&& branches.len() == 2
    &&& absence_partition_name(branches) matches Some(name) && accepts_all_without(sup, name)
}

/// Whether `oneOf: branches` is "all objects" xor "objects with `p`" (one
/// arm accepting all objects, the other requiring exactly `p`; see
/// `presence_name`), whose language is the objects without `p`, and `sup`
/// accepts every object without `p` by its shape. Then every value of the
/// `oneOf` is accepted by `sup`.
pub fn oneof_object_absence_partition_subset_of(branches: &[SchemaNode], sup: &SchemaNode) -> (r: bool)
    ensures
        r == object_absence_partition(branches@, *sup),
        r ==> forall|v: JsonValue, rx: spec_fn(Seq<char>, Seq<char>) -> bool|
            #[trigger] one_of_accepts(branches@, v, rx) ==> accepts(*sup, v, rx),
{
    if branches.len() != 2 {
        return false;
    }
    let name = if is_object_with_min(&branches[0], 0) {
        presence_name_of(&branches[1])
    } else if is_object_with_min(&branches[1], 0) {
        presence_name_of(&branches[0])
    } else {
        None
    };
    let r = match name {
        Some(n) => schema_accepts_all_without(sup, n),
        None => false,
    };
    proof {
        assert forall|v: JsonValue, rx: spec_fn(Seq<char>, Seq<char>) -> bool|
            r && #[trigger] one_of_accepts(branches@, v, rx) implies accepts(*sup, v, rx) by {
            lemma_one_of_pair(branches@, v, rx);
            let p = absence_partition_name(branches@)->0;
            if object_with_min(branches@[0], 0) {
                lemma_object_with_min(branches@[0], 0, v, rx);
                lemma_presence_name(branches@[1], v, rx);
            } else {
                lemma_object_with_min(branches@[1], 0, v, rx);
                lemma_presence_name(branches@[0], v, rx);
            }
            lemma_accepts_all_without(*sup, p, v->Object_0, rx);
        }
    }
    r
}

} // verus!
