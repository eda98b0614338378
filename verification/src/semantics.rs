//! What a schema accepts: JSON Schema validation of one instance, as a spec.
//!
//! Regular-expression matching is a parameter (`rx(pattern, text)`), so every
//! fact proved against this semantics holds for any regex dialect. `format`
//! is an annotation and constrains nothing.

use vstd::prelude::*;
use crate::json::{JsonValue, JsonNumber, json_eq, float_rational, number_rational, number_is_integral, members_have_key};
use crate::schema::{SchemaNode, SchemaNodeKind, NumberBound, PatternProperty, count_in_range};

verus! {

/// `a/b <= c/d` for fractions with positive denominators.
pub open spec fn rat_le(x: (int, int), y: (int, int)) -> bool {
    x.0 * y.1 <= y.0 * x.1
}

/// `a/b < c/d` for fractions with positive denominators.
pub open spec fn rat_lt(x: (int, int), y: (int, int)) -> bool {
    x.0 * y.1 < y.0 * x.1
}

/// Whether `n` lies above a lower number bound.
pub open spec fn lower_bound_ok(bound: NumberBound, n: JsonNumber) -> bool {
    match bound {
        NumberBound::Unbounded => true,
        NumberBound::Inclusive(bits) => rat_le(float_rational(bits), number_rational(n)),
        NumberBound::Exclusive(bits) => rat_lt(float_rational(bits), number_rational(n)),
    }
}

/// Whether `n` lies below an upper number bound.
pub open spec fn upper_bound_ok(bound: NumberBound, n: JsonNumber) -> bool {
    match bound {
        NumberBound::Unbounded => true,
        NumberBound::Inclusive(bits) => rat_le(number_rational(n), float_rational(bits)),
        NumberBound::Exclusive(bits) => rat_lt(number_rational(n), float_rational(bits)),
    }
}

/// Whether `n` divided by the number with bits `m` is an integer.
pub open spec fn is_multiple_of_float(n: JsonNumber, m: u64) -> bool {
    let (p, q) = number_rational(n);
    let (a, b) = float_rational(m);
    a != 0 && (p * b) % (q * a) == 0
}

/// The integer value of an integral number.
pub open spec fn integer_value(n: JsonNumber) -> int {
    number_rational(n).0 / number_rational(n).1
}

/// Whether `v` equals a member of an optional enumeration (`None` allows all).
pub open spec fn enumeration_ok(enumeration: Option<Vec<JsonValue>>, v: JsonValue) -> bool {
    match enumeration {
        None => true,
        Some(values) => exists|i: int| 0 <= i < values@.len() && json_eq(v, #[trigger] values@[i]),
    }
}

/// Whether an object member named `name` falls under some `properties` entry.
pub open spec fn declared_name(properties: Seq<(String, SchemaNode)>, name: Seq<char>) -> bool {
    exists|j: int| 0 <= j < properties.len() && (#[trigger] properties[j]).0@ == name
}

/// Whether an object member named `name` falls under some `patternProperties` entry.
pub open spec fn pattern_named(patterns: Seq<PatternProperty>, name: Seq<char>, rx: spec_fn(Seq<char>, Seq<char>) -> bool) -> bool {
    exists|j: int| 0 <= j < patterns.len() && rx((#[trigger] patterns[j]).pattern.source@, name)
}

/// Every `dependentRequired` rule whose trigger is present has its names present.
pub open spec fn dependencies_ok(rules: Seq<(String, Vec<String>)>, members: Seq<(String, JsonValue)>) -> bool {
    forall|d: int| 0 <= d < rules.len() && members_have_key(members, (#[trigger] rules[d]).0@)
        ==> forall|k: int| 0 <= k < rules[d].1@.len() ==> members_have_key(members, (#[trigger] rules[d].1@[k])@)
}

/// No two items are equal.
pub open spec fn items_unique(items: Seq<JsonValue>) -> bool {
    forall|i: int, j: int| 0 <= i < j < items.len() ==> !json_eq(#[trigger] items[i], #[trigger] items[j])
}

/// Whether schema `s` accepts instance `v`.
pub open spec fn accepts(s: SchemaNode, v: JsonValue, rx: spec_fn(Seq<char>, Seq<char>) -> bool) -> bool
    decreases s, 0nat, 0nat,
{
    match s.kind {
        SchemaNodeKind::Any => true,
        SchemaNodeKind::BoolSchema(b) => b,
        SchemaNodeKind::Const(c) => json_eq(v, c),
        SchemaNodeKind::Enum(values) => exists|i: int| 0 <= i < values@.len() && json_eq(v, #[trigger] values@[i]),
        SchemaNodeKind::Not(child) => !accepts(*child, v, rx),
        SchemaNodeKind::AllOf(children) => forall|i: int| 0 <= i < children@.len() ==> accepts(#[trigger] children@[i], v, rx),
        SchemaNodeKind::AnyOf(children) => exists|i: int| 0 <= i < children@.len() && accepts(#[trigger] children@[i], v, rx),
        SchemaNodeKind::OneOf(children) => exists|i: int| 0 <= i < children@.len() && accepts(#[trigger] children@[i], v, rx)
            && forall|j: int| 0 <= j < children@.len() && j != i ==> !accepts(#[trigger] children@[j], v, rx),
        SchemaNodeKind::IfThenElse { if_schema, then_schema, else_schema } => if accepts(*if_schema, v, rx) {
            match then_schema {
                Some(t) => accepts(*t, v, rx),
                None => true,
            }
        } else {
            match else_schema {
                Some(e) => accepts(*e, v, rx),
                None => true,
            }
        },
        SchemaNodeKind::String { length, pattern, format, enumeration } => match v {
            JsonValue::String(t) => count_in_range(t@.len() as int, length.min as int, match length.max { Some(m) => Some(m as int), None => None })
                && (pattern matches Some(p) ==> rx(p.source@, t@))
                && enumeration_ok(enumeration, v),
            _ => false,
        },
        SchemaNodeKind::Number { bounds, multiple_of, enumeration } => match v {
            JsonValue::Number(n) => lower_bound_ok(bounds.lower, n) && upper_bound_ok(bounds.upper, n)
                && (multiple_of matches Some(m) ==> is_multiple_of_float(n, m.value))
                && enumeration_ok(enumeration, v),
            _ => false,
        },
        SchemaNodeKind::Integer { bounds, multiple_of, enumeration } => match v {
            JsonValue::Number(n) => number_is_integral(n)
                && (bounds.lower matches Some(l) ==> l <= integer_value(n))
                && (bounds.upper matches Some(u) ==> integer_value(n) <= u)
                && (multiple_of matches Some(m) ==> match m.divisor {
                    Some(d) => d != 0 && integer_value(n) % (d as int) == 0,
                    None => is_multiple_of_float(n, m.value),
                })
                && enumeration_ok(enumeration, v),
            _ => false,
        },
        SchemaNodeKind::Boolean { enumeration } => v is Bool && enumeration_ok(enumeration, v),
        SchemaNodeKind::Null { enumeration } => v is Null && enumeration_ok(enumeration, v),
        SchemaNodeKind::Object { properties, pattern_properties, required, additional, property_names, property_count, dependent_required, enumeration } => match v {
            JsonValue::Object(members) => {
                &&& forall|i: int, j: int| 0 <= i < members@.len() && 0 <= j < properties@.len()
                    && (#[trigger] members@[i]).0@ == (#[trigger] properties@[j]).0@
                    ==> accepts(properties@[j].1, members@[i].1, rx)
                &&& forall|i: int, j: int| 0 <= i < members@.len() && 0 <= j < pattern_properties@.len()
                    && rx((#[trigger] pattern_properties@[j]).pattern.source@, (#[trigger] members@[i]).0@)
                    ==> accepts(pattern_properties@[j].schema, members@[i].1, rx)
                &&& forall|i: int| 0 <= i < members@.len() && !declared_name(properties@, (#[trigger] members@[i]).0@)
                    && !pattern_named(pattern_properties@, members@[i].0@, rx)
                    ==> accepts(*additional, members@[i].1, rx)
                &&& forall|i: int| 0 <= i < members@.len() ==> accepts(*property_names, JsonValue::String((#[trigger] members@[i]).0), rx)
                &&& forall|r: int| 0 <= r < required@.len() ==> members_have_key(members@, (#[trigger] required@[r])@)
                &&& count_in_range(members@.len() as int, property_count.min as int, match property_count.max { Some(m) => Some(m as int), None => None })
                &&& dependencies_ok(dependent_required@, members@)
                &&& enumeration_ok(enumeration, v)
            },
            _ => false,
        },
        SchemaNodeKind::Array { prefix_items, items, item_count, contains, unique_items, enumeration } => match v {
            JsonValue::Array(values) => {
                &&& forall|i: int| 0 <= i < values@.len() && i < prefix_items@.len() ==> accepts(#[trigger] prefix_items@[i], values@[i], rx)
                &&& forall|i: int| 0 <= i < values@.len() && i >= prefix_items@.len() ==> accepts(*items, #[trigger] values@[i], rx)
                &&& count_in_range(values@.len() as int, item_count.min as int, match item_count.max { Some(m) => Some(m as int), None => None })
                &&& (contains matches Some(c) ==> count_in_range(matching_count(*c.schema, values@, rx) as int, c.count.min as int,
                        match c.count.max { Some(m) => Some(m as int), None => None }))
                &&& (unique_items ==> items_unique(values@))
                &&& enumeration_ok(enumeration, v)
            },
            _ => false,
        },
    }
}

/// How many of `values` schema `s` accepts.
pub open spec fn matching_count(s: SchemaNode, values: Seq<JsonValue>, rx: spec_fn(Seq<char>, Seq<char>) -> bool) -> nat
    decreases s, 1nat, values.len(),
{
    if values.len() == 0 {
        0
    } else {
        matching_count(s, values.drop_last(), rx) + if accepts(s, values.last(), rx) { 1nat } else { 0nat }
    }
}

} // verus!
