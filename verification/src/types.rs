//! JSON-type facts about schemas: which types a schema may accept, which
//! types it accepts wholesale, and which schemas accept everything.

use vstd::prelude::*;
use crate::json::{JsonValue, json_type_bit, json_eq, JSON_TYPE_NULL, JSON_TYPE_BOOL, JSON_TYPE_NUMBER,
    JSON_TYPE_STRING, JSON_TYPE_ARRAY, JSON_TYPE_OBJECT, JSON_TYPE_ALL};
use crate::schema::{SchemaNode, SchemaNodeKind, NumberBound};
use crate::semantics::{accepts, declared_name, pattern_named, enumeration_ok, dependencies_ok};
use crate::bits::is_type_bit;

verus! {

/// Whether a schema accepts every value: `true`, `{}`, `not false`, and
/// applicator combinations of those.
pub open spec fn trivially_universal(s: SchemaNode) -> bool
    decreases s,
{
    match s.kind {
        SchemaNodeKind::Any => true,
        SchemaNodeKind::BoolSchema(b) => b,
        SchemaNodeKind::Not(child) => child.kind == SchemaNodeKind::BoolSchema(false),
        SchemaNodeKind::AllOf(children) => forall|i: int| 0 <= i < children@.len() ==> trivially_universal(#[trigger] children@[i]),
        SchemaNodeKind::AnyOf(children) => exists|i: int| 0 <= i < children@.len() && trivially_universal(#[trigger] children@[i]),
        SchemaNodeKind::IfThenElse { if_schema, then_schema, else_schema } => match (then_schema, else_schema) {
            (Some(t), Some(e)) => trivially_universal(*t) && trivially_universal(*e),
            (Some(t), None) => trivially_universal(*t),
            (None, Some(e)) => trivially_universal(*e),
            (None, None) => true,
        },
        _ => false,
    }
}

/// Whether a schema is trivially universal: accepts every value by its shape alone.
pub fn schema_is_trivially_universal(schema: &SchemaNode) -> (r: bool)
    ensures
        r == trivially_universal(*schema),
    decreases *schema,
{
    match &schema.kind {
        SchemaNodeKind::Any => true,
        SchemaNodeKind::BoolSchema(b) => *b,
        SchemaNodeKind::Not(child) => match child.kind {
            SchemaNodeKind::BoolSchema(b) => !b,
            _ => false,
        },
        SchemaNodeKind::AllOf(children) => {
            let mut i: usize = 0;
            while i < children.len()
                invariant
                    i <= children@.len(),
                    schema.kind == SchemaNodeKind::AllOf(*children),
                    forall|k: int| 0 <= k < i ==> trivially_universal(#[trigger] children@[k]),
                decreases children@.len() - i,
            {
                proof {
                    assert(decreases_to!(*schema => schema.kind));
                    assert(decreases_to!(schema.kind => schema.kind->AllOf_0));
                    assert(decreases_to!(*children => children[i as int]));
                }
                if !schema_is_trivially_universal(&children[i]) {
                    assert(!trivially_universal(children@[i as int]));
                    return false;
                }
                i = i + 1;
            }
            true
        },
        SchemaNodeKind::AnyOf(children) => {
            let mut i: usize = 0;
            while i < children.len()
                invariant
                    i <= children@.len(),
                    schema.kind == SchemaNodeKind::AnyOf(*children),
                    forall|k: int| 0 <= k < i ==> !trivially_universal(#[trigger] children@[k]),
                decreases children@.len() - i,
            {
                proof {
                    assert(decreases_to!(*schema => schema.kind));
                    assert(decreases_to!(schema.kind => schema.kind->AnyOf_0));
                    assert(decreases_to!(*children => children[i as int]));
                }
                if schema_is_trivially_universal(&children[i]) {
                    assert(trivially_universal(children@[i as int]));
                    return true;
                }
                i = i + 1;
            }
            false
        },
        SchemaNodeKind::IfThenElse { if_schema, then_schema, else_schema } => match (then_schema, else_schema) {
            (Some(t), Some(e)) => schema_is_trivially_universal(t) && schema_is_trivially_universal(e),
            (Some(t), None) => schema_is_trivially_universal(t),
            (None, Some(e)) => schema_is_trivially_universal(e),
            (None, None) => true,
        },
        _ => false,
    }
}

/// Whether `s` may accept some value of JSON type `t` (an over-approximation:
/// `false` means no value of that type is accepted).
pub open spec fn may_have_type(s: SchemaNode, t: u8) -> bool
    decreases s,
{
    match s.kind {
        SchemaNodeKind::Any => true,
        SchemaNodeKind::BoolSchema(b) => b,
        SchemaNodeKind::Const(v) => json_type_bit(v) == t,
        SchemaNodeKind::Enum(values) => exists|i: int| 0 <= i < values@.len() && json_type_bit(#[trigger] values@[i]) == t,
        SchemaNodeKind::Not(child) => !obviously_accepts_type(*child, t),
        SchemaNodeKind::AllOf(children) => forall|i: int| 0 <= i < children@.len() ==> may_have_type(#[trigger] children@[i], t),
        SchemaNodeKind::AnyOf(children) => exists|i: int| 0 <= i < children@.len() && may_have_type(#[trigger] children@[i], t),
        SchemaNodeKind::OneOf(children) => exists|i: int| 0 <= i < children@.len() && may_have_type(#[trigger] children@[i], t),
        SchemaNodeKind::IfThenElse { if_schema, then_schema, else_schema } =>
            (may_have_type(*if_schema, t) && match then_schema { Some(b) => may_have_type(*b, t), None => true })
            || (!obviously_accepts_type(*if_schema, t) && match else_schema { Some(b) => may_have_type(*b, t), None => true }),
        SchemaNodeKind::String { .. } => t == JSON_TYPE_STRING,
        SchemaNodeKind::Number { .. } => t == JSON_TYPE_NUMBER,
        SchemaNodeKind::Integer { .. } => t == JSON_TYPE_NUMBER,
        SchemaNodeKind::Boolean { .. } => t == JSON_TYPE_BOOL,
        SchemaNodeKind::Null { .. } => t == JSON_TYPE_NULL,
        SchemaNodeKind::Object { .. } => t == JSON_TYPE_OBJECT,
        SchemaNodeKind::Array { .. } => t == JSON_TYPE_ARRAY,
    }
}

/// Whether `s` syntactically accepts every value of JSON type `t`.
pub open spec fn obviously_accepts_type(s: SchemaNode, t: u8) -> bool
    decreases s,
{
    match s.kind {
        SchemaNodeKind::Any => true,
        SchemaNodeKind::BoolSchema(b) => b,
        SchemaNodeKind::Const(v) => t == JSON_TYPE_NULL && v is Null,
        SchemaNodeKind::Enum(values) => if t == JSON_TYPE_NULL {
            exists|i: int| 0 <= i < values@.len() && (#[trigger] values@[i]) is Null
        } else if t == JSON_TYPE_BOOL {
            (exists|i: int| 0 <= i < values@.len() && #[trigger] values@[i] == JsonValue::Bool(false))
            && (exists|i: int| 0 <= i < values@.len() && #[trigger] values@[i] == JsonValue::Bool(true))
        } else {
            false
        },
        SchemaNodeKind::Not(child) => child.kind == SchemaNodeKind::BoolSchema(false) || !may_have_type(*child, t),
        SchemaNodeKind::AllOf(children) => forall|i: int| 0 <= i < children@.len() ==> obviously_accepts_type(#[trigger] children@[i], t),
        SchemaNodeKind::AnyOf(children) => exists|i: int| 0 <= i < children@.len() && obviously_accepts_type(#[trigger] children@[i], t),
        SchemaNodeKind::String { length, pattern, format, enumeration } => t == JSON_TYPE_STRING && length.min == 0
            && length.max is None && pattern is None && format is None && enumeration is None,
        SchemaNodeKind::Number { bounds, multiple_of, enumeration } => t == JSON_TYPE_NUMBER && bounds.lower is Unbounded
            && bounds.upper is Unbounded && multiple_of is None && enumeration is None,
        SchemaNodeKind::Boolean { enumeration } => t == JSON_TYPE_BOOL && enumeration is None,
        SchemaNodeKind::Null { enumeration } => t == JSON_TYPE_NULL && enumeration is None,
        SchemaNodeKind::Object { properties, pattern_properties, required, additional, property_names, property_count, dependent_required, enumeration } =>
            t == JSON_TYPE_OBJECT && properties@.len() == 0 && pattern_properties@.len() == 0 && required@.len() == 0
            && property_count.min == 0 && property_count.max is None && dependent_required@.len() == 0 && enumeration is None
            && trivially_universal(*additional)
            && (trivially_universal(*property_names) || obviously_accepts_type(*property_names, JSON_TYPE_STRING)),
        SchemaNodeKind::Array { prefix_items, items, item_count, contains, unique_items, enumeration } =>
            t == JSON_TYPE_ARRAY && prefix_items@.len() == 0 && item_count.min == 0 && item_count.max is None
            && contains is None && !unique_items && enumeration is None && trivially_universal(*items),
        _ => false,
    }
}

/// A mask holds exactly the type bits `s` may accept.
pub open spec fn possible_mask_holds(m: u8, s: SchemaNode) -> bool {
    &&& forall|t: u8| is_type_bit(t) ==> ((m & t) != 0 <==> #[trigger] may_have_type(s, t))
    &&& m & 192u8 == 0
}

/// A mask holds exactly the type bits `s` accepts wholesale.
pub open spec fn whole_mask_holds(m: u8, s: SchemaNode) -> bool {
    &&& forall|t: u8| is_type_bit(t) ==> ((m & t) != 0 <==> #[trigger] obviously_accepts_type(s, t))
    &&& m & 192u8 == 0
}

fn pack_type_mask(null: bool, boolean: bool, number: bool, string: bool, array: bool, object: bool) -> (m: u8)
    ensures
        forall|t: u8| is_type_bit(t) ==> ((m & t) != 0 <==> (
            (t == JSON_TYPE_NULL && null) || (t == JSON_TYPE_BOOL && boolean) || (t == JSON_TYPE_NUMBER && number)
            || (t == JSON_TYPE_STRING && string) || (t == JSON_TYPE_ARRAY && array) || (t == JSON_TYPE_OBJECT && object))),
        m & 192u8 == 0,
{
    let a: u8 = if null { 1 } else { 0 };
    let b: u8 = if boolean { 2 } else { 0 };
    let c: u8 = if number { 4 } else { 0 };
    let d: u8 = if string { 8 } else { 0 };
    let e: u8 = if array { 16 } else { 0 };
    let f: u8 = if object { 32 } else { 0 };
    let m = a | b | c | d | e | f;
    assert(((m & 1) != 0) == (a != 0) && ((m & 2) != 0) == (b != 0) && ((m & 4) != 0) == (c != 0)
        && ((m & 8) != 0) == (d != 0) && ((m & 16) != 0) == (e != 0) && ((m & 32) != 0) == (f != 0)
        && m & 192u8 == 0) by (bit_vector)
        requires
            m == a | b | c | d | e | f,
            a == 0 || a == 1, b == 0 || b == 2, c == 0 || c == 4, d == 0 || d == 8, e == 0 || e == 16, f == 0 || f == 32;
    m
}

/// An upper bound on the JSON types `schema` accepts, as a type-bit mask.
pub fn possible_json_type_mask(schema: &SchemaNode) -> (r: u8)
    ensures
        possible_mask_holds(r, *schema),
{
    let r = pack_type_mask(
        schema_may_accept_json_type(schema, JSON_TYPE_NULL),
        schema_may_accept_json_type(schema, JSON_TYPE_BOOL),
        schema_may_accept_json_type(schema, JSON_TYPE_NUMBER),
        schema_may_accept_json_type(schema, JSON_TYPE_STRING),
        schema_may_accept_json_type(schema, JSON_TYPE_ARRAY),
        schema_may_accept_json_type(schema, JSON_TYPE_OBJECT),
    );
    r
}

/// The JSON types `schema` syntactically accepts wholesale, as a type-bit mask.
pub fn whole_json_types_accepted_mask(schema: &SchemaNode) -> (r: u8)
    ensures
        whole_mask_holds(r, *schema),
{
    pack_type_mask(
        schema_obviously_accepts_json_type(schema, JSON_TYPE_NULL),
        schema_obviously_accepts_json_type(schema, JSON_TYPE_BOOL),
        schema_obviously_accepts_json_type(schema, JSON_TYPE_NUMBER),
        schema_obviously_accepts_json_type(schema, JSON_TYPE_STRING),
        schema_obviously_accepts_json_type(schema, JSON_TYPE_ARRAY),
        schema_obviously_accepts_json_type(schema, JSON_TYPE_OBJECT),
    )
}

/// Whether `schema` may accept some value of JSON type `bit`.
pub fn schema_may_accept_json_type(schema: &SchemaNode, bit: u8) -> (r: bool)
    requires
        is_type_bit(bit),
    ensures
        r == may_have_type(*schema, bit),
    decreases *schema,
{
    match &schema.kind {
        SchemaNodeKind::Any => true,
        SchemaNodeKind::BoolSchema(b) => *b,
        SchemaNodeKind::Const(v) => v.type_bit() == bit,
        SchemaNodeKind::Enum(values) => {
            let mut i: usize = 0;
            while i < values.len()
                invariant
                    i <= values@.len(),
                    schema.kind == SchemaNodeKind::Enum(*values),
                    forall|k: int| 0 <= k < i ==> json_type_bit(#[trigger] values@[k]) != bit,
                decreases values@.len() - i,
            {
                if values[i].type_bit() == bit {
                    assert(json_type_bit(values@[i as int]) == bit);
                    assert(schema.kind->Enum_0 == *values);
                    assert(exists|k: int| 0 <= k < schema.kind->Enum_0@.len() && json_type_bit(#[trigger] schema.kind->Enum_0@[k]) == bit);
                    return true;
                }
                i = i + 1;
            }
            false
        },
        SchemaNodeKind::Not(child) => {
            proof {
                assert(decreases_to!(*schema => schema.kind));
                assert(decreases_to!(schema.kind => *schema.kind->Not_0));
            }
            !schema_obviously_accepts_json_type(child, bit)
        },
        SchemaNodeKind::AllOf(children) => {
            let mut i: usize = 0;
            while i < children.len()
                invariant
                    i <= children@.len(),
                    is_type_bit(bit),
                    schema.kind == SchemaNodeKind::AllOf(*children),
                    forall|k: int| 0 <= k < i ==> may_have_type(#[trigger] children@[k], bit),
                decreases children@.len() - i,
            {
                proof {
                    assert(decreases_to!(*schema => schema.kind));
                    assert(decreases_to!(schema.kind => schema.kind->AllOf_0));
                    assert(decreases_to!(*children => children[i as int]));
                }
                if !schema_may_accept_json_type(&children[i], bit) {
                    assert(!may_have_type(children@[i as int], bit));
                    return false;
                }
                i = i + 1;
            }
            true
        },
        SchemaNodeKind::AnyOf(children) | SchemaNodeKind::OneOf(children) => {
            let mut i: usize = 0;
            while i < children.len()
                invariant
                    i <= children@.len(),
                    is_type_bit(bit),
                    schema.kind == SchemaNodeKind::AnyOf(*children) || schema.kind == SchemaNodeKind::OneOf(*children),
                    forall|k: int| 0 <= k < i ==> !may_have_type(#[trigger] children@[k], bit),
                decreases children@.len() - i,
            {
                proof {
                    assert(decreases_to!(*schema => schema.kind));
                    if schema.kind is AnyOf {
                        assert(decreases_to!(schema.kind => schema.kind->AnyOf_0));
                    } else {
                        assert(decreases_to!(schema.kind => schema.kind->OneOf_0));
                    }
                    assert(decreases_to!(*children => children[i as int]));
                }
                if schema_may_accept_json_type(&children[i], bit) {
                    assert(may_have_type(children@[i as int], bit));
                    return true;
                }
                i = i + 1;
            }
            false
        },
        SchemaNodeKind::IfThenElse { if_schema, then_schema, else_schema } => {
            let then_ok = match then_schema {
                Some(b) => schema_may_accept_json_type(b, bit),
                None => true,
            };
            let else_ok = match else_schema {
                Some(b) => schema_may_accept_json_type(b, bit),
                None => true,
            };
            (schema_may_accept_json_type(if_schema, bit) && then_ok)
                || (!schema_obviously_accepts_json_type(if_schema, bit) && else_ok)
        },
        SchemaNodeKind::String { .. } => bit == JSON_TYPE_STRING,
        SchemaNodeKind::Number { .. } => bit == JSON_TYPE_NUMBER,
        SchemaNodeKind::Integer { .. } => bit == JSON_TYPE_NUMBER,
        SchemaNodeKind::Boolean { .. } => bit == JSON_TYPE_BOOL,
        SchemaNodeKind::Null { .. } => bit == JSON_TYPE_NULL,
        SchemaNodeKind::Object { .. } => bit == JSON_TYPE_OBJECT,
        SchemaNodeKind::Array { .. } => bit == JSON_TYPE_ARRAY,
    }
}

/// Whether `schema` syntactically accepts every value of JSON type `bit`.
pub fn schema_obviously_accepts_json_type(schema: &SchemaNode, bit: u8) -> (r: bool)
    requires
        is_type_bit(bit),
    ensures
        r == obviously_accepts_type(*schema, bit),
    decreases *schema,
{
    match &schema.kind {
        SchemaNodeKind::Any => true,
        SchemaNodeKind::BoolSchema(b) => *b,
        SchemaNodeKind::Const(v) => bit == JSON_TYPE_NULL && v.is_null(),
        SchemaNodeKind::Enum(values) => {
            if bit == JSON_TYPE_NULL {
                let mut i: usize = 0;
                while i < values.len()
                    invariant
                        i <= values@.len(),
                        schema.kind == SchemaNodeKind::Enum(*values),
                        bit == JSON_TYPE_NULL,
                        forall|k: int| 0 <= k < i ==> !((#[trigger] values@[k]) is Null),
                    decreases values@.len() - i,
                {
                    if values[i].is_null() {
                        assert(values@[i as int] is Null);
                        return true;
                    }
                    i = i + 1;
                }
                false
            } else if bit == JSON_TYPE_BOOL {
                let mut saw_false = false;
                let mut saw_true = false;
                let mut i: usize = 0;
                while i < values.len()
                    invariant
                        i <= values@.len(),
                        schema.kind == SchemaNodeKind::Enum(*values),
                        bit == JSON_TYPE_BOOL,
                        saw_false == exists|k: int| 0 <= k < i && #[trigger] values@[k] == JsonValue::Bool(false),
                        saw_true == exists|k: int| 0 <= k < i && #[trigger] values@[k] == JsonValue::Bool(true),
                    decreases values@.len() - i,
                {
                    match &values[i] {
                        JsonValue::Bool(b) => {
                            if *b {
                                saw_true = true;
                            } else {
                                saw_false = true;
                            }
                        },
                        _ => {},
                    }
                    i = i + 1;
                }
                saw_false && saw_true
            } else {
                false
            }
        },
        SchemaNodeKind::Not(child) => {
            proof {
                assert(decreases_to!(*schema => schema.kind));
                assert(decreases_to!(schema.kind => *schema.kind->Not_0));
            }
            match child.kind {
                SchemaNodeKind::BoolSchema(false) => true,
                _ => !schema_may_accept_json_type(child, bit),
            }
        },
        SchemaNodeKind::AllOf(children) => {
            let mut i: usize = 0;
            while i < children.len()
                invariant
                    i <= children@.len(),
                    is_type_bit(bit),
                    schema.kind == SchemaNodeKind::AllOf(*children),
                    forall|k: int| 0 <= k < i ==> obviously_accepts_type(#[trigger] children@[k], bit),
                decreases children@.len() - i,
            {
                proof {
                    assert(decreases_to!(*schema => schema.kind));
                    assert(decreases_to!(schema.kind => schema.kind->AllOf_0));
                    assert(decreases_to!(*children => children[i as int]));
                }
                if !schema_obviously_accepts_json_type(&children[i], bit) {
                    assert(!obviously_accepts_type(children@[i as int], bit));
                    return false;
                }
                i = i + 1;
            }
            true
        },
        SchemaNodeKind::AnyOf(children) => {
            let mut i: usize = 0;
            while i < children.len()
                invariant
                    i <= children@.len(),
                    is_type_bit(bit),
                    schema.kind == SchemaNodeKind::AnyOf(*children),
                    forall|k: int| 0 <= k < i ==> !obviously_accepts_type(#[trigger] children@[k], bit),
                decreases children@.len() - i,
            {
                proof {
                    assert(decreases_to!(*schema => schema.kind));
                    assert(decreases_to!(schema.kind => schema.kind->AnyOf_0));
                    assert(decreases_to!(*children => children[i as int]));
                }
                if schema_obviously_accepts_json_type(&children[i], bit) {
                    assert(obviously_accepts_type(children@[i as int], bit));
                    return true;
                }
                i = i + 1;
            }
            false
        },
        SchemaNodeKind::String { length, pattern, format, enumeration } => bit == JSON_TYPE_STRING && length.min == 0
            && length.max.is_none() && pattern.is_none() && format.is_none() && enumeration.is_none(),
        SchemaNodeKind::Number { bounds, multiple_of, enumeration } => bit == JSON_TYPE_NUMBER
            && matches!(bounds.lower, NumberBound::Unbounded) && matches!(bounds.upper, NumberBound::Unbounded)
            && multiple_of.is_none() && enumeration.is_none(),
        SchemaNodeKind::Boolean { enumeration } => bit == JSON_TYPE_BOOL && enumeration.is_none(),
        SchemaNodeKind::Null { enumeration } => bit == JSON_TYPE_NULL && enumeration.is_none(),
        SchemaNodeKind::Object { properties, pattern_properties, required, additional, property_names, property_count, dependent_required, enumeration } => {
            if !(bit == JSON_TYPE_OBJECT && properties.len() == 0 && pattern_properties.len() == 0 && required.len() == 0
                && property_count.min == 0 && property_count.max.is_none() && dependent_required.len() == 0
                && enumeration.is_none() && schema_is_trivially_universal(additional)) {
                return false;
            }
            proof {
                assert(decreases_to!(*schema => schema.kind));
                assert(decreases_to!(schema.kind => *schema.kind->Object_property_names));
            }
            schema_is_trivially_universal(property_names) || schema_obviously_accepts_json_type(property_names, JSON_TYPE_STRING)
        },
        SchemaNodeKind::Array { prefix_items, items, item_count, contains, unique_items, enumeration } =>
            bit == JSON_TYPE_ARRAY && prefix_items.len() == 0 && item_count.min == 0 && item_count.max.is_none()
            && contains.is_none() && !*unique_items && enumeration.is_none() && schema_is_trivially_universal(items),
        _ => false,
    }
}

/// A trivially universal schema accepts every value.
pub proof fn lemma_trivially_universal_accepts(s: SchemaNode, v: JsonValue, rx: spec_fn(Seq<char>, Seq<char>) -> bool)
    requires
        trivially_universal(s),
    ensures
        accepts(s, v, rx),
    decreases s,
{
    match s.kind {
        SchemaNodeKind::AllOf(children) => {
            assert(s.kind->AllOf_0 == children);
            assert forall|i: int| 0 <= i < children@.len() implies accepts(#[trigger] children@[i], v, rx) by {
                assert(s.kind->AllOf_0@[i] == children@[i]);
                assert(trivially_universal(s.kind->AllOf_0@[i]));
                lemma_trivially_universal_accepts(children@[i], v, rx);
            }
            assert(forall|i: int| 0 <= i < s.kind->AllOf_0@.len() ==> accepts(#[trigger] s.kind->AllOf_0@[i], v, rx));
        },
        SchemaNodeKind::AnyOf(children) => {
            let i = choose|i: int| 0 <= i < children@.len() && trivially_universal(#[trigger] children@[i]);
            lemma_trivially_universal_accepts(children@[i], v, rx);
        },
        SchemaNodeKind::IfThenElse { if_schema, then_schema, else_schema } => {
            match then_schema {
                Some(t) => lemma_trivially_universal_accepts(*t, v, rx),
                None => {},
            }
            match else_schema {
                Some(e) => lemma_trivially_universal_accepts(*e, v, rx),
                None => {},
            }
        },
        SchemaNodeKind::Not(child) => {
            assert(!accepts(*child, v, rx));
        },
        _ => {},
    }
}

/// The two JSON-type facts are sound: a schema accepts only values of types
/// it may have, and accepts every value of a type it obviously accepts.
pub proof fn lemma_type_facts_sound(s: SchemaNode, v: JsonValue, rx: spec_fn(Seq<char>, Seq<char>) -> bool)
    ensures
        accepts(s, v, rx) ==> may_have_type(s, json_type_bit(v)),
        obviously_accepts_type(s, json_type_bit(v)) ==> accepts(s, v, rx),
    decreases s,
{
    let t = json_type_bit(v);
    match s.kind {
        SchemaNodeKind::Const(c) => {
            if accepts(s, v, rx) {
                assert(json_eq(v, c));
            }
            if obviously_accepts_type(s, t) {
                assert(json_eq(v, c));
            }
        },
        SchemaNodeKind::Enum(values) => {
            if accepts(s, v, rx) {
                let i = choose|i: int| 0 <= i < values@.len() && json_eq(v, #[trigger] values@[i]);
                assert(json_type_bit(values@[i]) == t);
                assert(s.kind->Enum_0 == values);
                assert(exists|k: int| 0 <= k < s.kind->Enum_0@.len() && json_type_bit(#[trigger] s.kind->Enum_0@[k]) == t);
            }
            if obviously_accepts_type(s, t) {
                if t == JSON_TYPE_NULL {
                    let i = choose|i: int| 0 <= i < values@.len() && (#[trigger] values@[i]) is Null;
                    assert(json_eq(v, values@[i]));
                } else {
                    let i = choose|i: int| 0 <= i < values@.len() && #[trigger] values@[i] == JsonValue::Bool(false);
                    let j = choose|i: int| 0 <= i < values@.len() && #[trigger] values@[i] == JsonValue::Bool(true);
                    match v {
                        JsonValue::Bool(b) => {
                            if b {
                                assert(json_eq(v, values@[j]));
                            } else {
                                assert(json_eq(v, values@[i]));
                            }
                        },
                        _ => {},
                    }
                }
            }
        },
        SchemaNodeKind::Not(child) => {
            lemma_type_facts_sound(*child, v, rx);
        },
        SchemaNodeKind::AllOf(children) => {
            assert forall|i: int| 0 <= i < children@.len() implies
                (accepts(children@[i], v, rx) ==> may_have_type(children@[i], t))
                && (obviously_accepts_type(children@[i], t) ==> accepts(children@[i], v, rx)) by {
                lemma_type_facts_sound(children@[i], v, rx);
            }
        },
        SchemaNodeKind::AnyOf(children) => {
            if accepts(s, v, rx) {
                let i = choose|i: int| 0 <= i < children@.len() && accepts(#[trigger] children@[i], v, rx);
                lemma_type_facts_sound(children@[i], v, rx);
            }
            if obviously_accepts_type(s, t) {
                let i = choose|i: int| 0 <= i < children@.len() && obviously_accepts_type(#[trigger] children@[i], t);
                lemma_type_facts_sound(children@[i], v, rx);
            }
        },
        SchemaNodeKind::OneOf(children) => {
            if accepts(s, v, rx) {
                let i = choose|i: int| 0 <= i < children@.len() && accepts(#[trigger] children@[i], v, rx)
                    && forall|j: int| 0 <= j < children@.len() && j != i ==> !accepts(#[trigger] children@[j], v, rx);
                lemma_type_facts_sound(children@[i], v, rx);
            }
        },
        SchemaNodeKind::IfThenElse { if_schema, then_schema, else_schema } => {
            lemma_type_facts_sound(*if_schema, v, rx);
            match then_schema {
                Some(b) => lemma_type_facts_sound(*b, v, rx),
                None => {},
            }
            match else_schema {
                Some(b) => lemma_type_facts_sound(*b, v, rx),
                None => {},
            }
        },
        SchemaNodeKind::Object { properties, pattern_properties, required, additional, property_names, property_count, dependent_required, enumeration } => {
            if obviously_accepts_type(s, t) {
                match v {
                    JsonValue::Object(members) => {
                        assert forall|i: int| 0 <= i < members@.len() && !declared_name(properties@, (#[trigger] members@[i]).0@)
                            && !pattern_named(pattern_properties@, members@[i].0@, rx)
                            implies accepts(*additional, members@[i].1, rx) by {
                            lemma_trivially_universal_accepts(*additional, members@[i].1, rx);
                        }
                        assert forall|i: int| 0 <= i < members@.len() implies accepts(*property_names, JsonValue::String((#[trigger] members@[i]).0), rx) by {
                            if trivially_universal(*property_names) {
                                lemma_trivially_universal_accepts(*property_names, JsonValue::String(members@[i].0), rx);
                            } else {
                                lemma_type_facts_sound(*property_names, JsonValue::String(members@[i].0), rx);
                            }
                        }
                        assert(dependencies_ok(dependent_required@, members@));
                    },
                    _ => {},
                }
            }
        },
        SchemaNodeKind::Array { prefix_items, items, item_count, contains, unique_items, enumeration } => {
            if obviously_accepts_type(s, t) {
                match v {
                    JsonValue::Array(values) => {
                        assert forall|i: int| 0 <= i < values@.len() && i >= prefix_items@.len() implies accepts(*items, #[trigger] values@[i], rx) by {
                            lemma_trivially_universal_accepts(*items, values@[i], rx);
                        }
                    },
                    _ => {},
                }
            }
        },
        _ => {},
    }
}

/// A value a schema accepts has its type bit set in the schema's
/// possible-type mask.
pub proof fn lemma_accepted_type_in_mask(m: u8, s: SchemaNode, v: JsonValue, rx: spec_fn(Seq<char>, Seq<char>) -> bool)
    requires
        possible_mask_holds(m, s),
        accepts(s, v, rx),
    ensures
        m & json_type_bit(v) != 0,
        is_type_bit(json_type_bit(v)),
{
    lemma_type_facts_sound(s, v, rx);
    assert(is_type_bit(json_type_bit(v)));
}

/// Whether `s` may accept a value of some JSON type.
pub open spec fn may_accept_some_type(s: SchemaNode) -> bool {
    exists|t: u8| is_type_bit(t) && #[trigger] may_have_type(s, t)
}

/// Whether `s` may accept a value of a JSON type other than `bit`.
pub open spec fn may_accept_other_type(s: SchemaNode, bit: u8) -> bool {
    exists|t: u8| is_type_bit(t) && t != bit && #[trigger] may_have_type(s, t)
}

/// The two tests callers make on a possible-type mask: zero, and any bit
/// beside `bit`.
pub proof fn lemma_possible_mask_tests(m: u8, s: SchemaNode, bit: u8)
    requires
        possible_mask_holds(m, s),
        is_type_bit(bit),
    ensures
        (m == 0) == !may_accept_some_type(s),
        (m & !bit == 0) == !may_accept_other_type(s, bit),
{
    crate::bits::lemma_mask_only(m, bit);
    if m == 0 {
        assert forall|t: u8| is_type_bit(t) implies !#[trigger] may_have_type(s, t) by {
            assert(m & t == 0);
        }
    } else {
        let t = choose|t: u8| is_type_bit(t) && #[trigger] (m & t) != 0;
        assert(may_have_type(s, t));
    }
    if m & !bit == 0 {
        assert forall|t: u8| is_type_bit(t) && t != bit implies !#[trigger] may_have_type(s, t) by {
            assert(m & t == 0);
        }
    } else {
        let t = choose|t: u8| is_type_bit(t) && t != bit && #[trigger] (m & t) != 0;
        assert(may_have_type(s, t));
    }
}

/// A schema that may accept no type accepts nothing, and one that may accept
/// only the type `bit` accepts only values of that type.
pub proof fn lemma_type_restriction(s: SchemaNode, bit: u8, v: JsonValue, rx: spec_fn(Seq<char>, Seq<char>) -> bool)
    requires
        accepts(s, v, rx),
    ensures
        may_accept_some_type(s),
        !may_accept_other_type(s, bit) ==> json_type_bit(v) == bit,
{
    lemma_type_facts_sound(s, v, rx);
    assert(is_type_bit(json_type_bit(v)));
}

} // verus!
