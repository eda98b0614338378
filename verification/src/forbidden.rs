//! Forbidden property names: schemas that reject every object carrying a
//! given member name, read off their shape.
//!
//! Patterns are answered by a caller-supplied matcher and enumerations by a
//! caller-supplied evaluator (see `literals` and `emptiness`); the facts
//! proved here hold for every regex semantics and evaluator those answers
//! are sound for.

use vstd::prelude::*;
use crate::json::{JsonValue, members_have_key, object_contains_key, str_eq};
use crate::schema::{SchemaNode, SchemaNodeKind, PatternSupport, PatternProperty};
use crate::semantics::{accepts, declared_name, pattern_named};
use crate::json::JSON_TYPE_OBJECT;
use crate::types::{may_have_type, obviously_accepts_type, possible_json_type_mask, whole_json_types_accepted_mask,
    lemma_type_facts_sound};
use crate::names::{name_set, names_contain, member_names, lemma_distinct_name_set_len, lemma_member_names_len};
use crate::properties::{guaranteed_names, guaranteed_property_name_closure, lemma_guaranteed_names_present,
    accepts_all_with, schema_accepts_all_objects_with_property, lemma_accepts_all_with_sound};
use crate::literals::{literal_rejected, matcher_agrees, matcher_callable, answers_follow,
    string_literal_definitely_rejected, lemma_literal_rejected_sound};
use crate::emptiness::{locally_empty, evaluator_agrees, evaluator_callable, evaluator_sound,
    schema_is_locally_empty_for_finite_enumeration, lemma_locally_empty_sound};

verus! {

/// Whether both oracles answer as the spec functions `m` and `ev` do.
pub open spec fn oracles_agree<F: Fn(&str, &str) -> Option<bool>, G: Fn(&SchemaNode, &JsonValue) -> bool>(
    matcher: F, evaluator: G, m: spec_fn(Seq<char>, Seq<char>) -> Option<bool>, ev: spec_fn(SchemaNode, JsonValue) -> bool) -> bool {
    matcher_agrees(matcher, m) && evaluator_agrees(evaluator, ev)
}

/// Whether `v` is an object with a member named `name`.
pub open spec fn object_with(v: JsonValue, name: Seq<char>) -> bool {
    v matches JsonValue::Object(members) && members_have_key(members@, name)
}

/// Whether an object schema `s` rejects every object with member `name`:
/// - `maxProperties` is 0, or `name` is not among the names every accepted
///   object carries and those already reach `maxProperties`;
/// - the `properties` entry for `name` is locally empty, or so is the schema
///   of a supported pattern that matches `name`;
/// - `propertyNames` rejects `name` outright;
/// - `name` is undeclared, every pattern is supported and misses it, and
///   `additionalProperties` is locally empty.
pub open spec fn object_forbids(s: SchemaNode, name: Seq<char>, m: spec_fn(Seq<char>, Seq<char>) -> Option<bool>,
    ev: spec_fn(SchemaNode, JsonValue) -> bool) -> bool {
    match s.kind {
        SchemaNodeKind::Object { properties, pattern_properties, additional, property_names, property_count, .. } => {
            ||| property_count.max == Some(0usize)
            ||| (property_count.max matches Some(mx) && !guaranteed_names(s).contains(name)
                    && guaranteed_names(s).finite() && guaranteed_names(s).len() >= mx)
            ||| (exists|j: int| 0 <= j < properties@.len() && (#[trigger] properties@[j]).0@ == name
                    && locally_empty(properties@[j].1, ev))
            ||| (exists|j: int| 0 <= j < pattern_properties@.len() && pattern_hits(#[trigger] pattern_properties@[j], name, m)
                    && locally_empty(pattern_properties@[j].schema, ev))
            ||| literal_rejected(*property_names, name, m)
            ||| (!declared_name(properties@, name)
                    && (forall|j: int| 0 <= j < pattern_properties@.len() ==> pattern_misses(#[trigger] pattern_properties@[j], name, m))
                    && locally_empty(*additional, ev))
        },
        _ => false,
    }
}

/// Whether a supported pattern is known to match `name`.
pub open spec fn pattern_hits(p: PatternProperty, name: Seq<char>, m: spec_fn(Seq<char>, Seq<char>) -> Option<bool>) -> bool {
    p.pattern.support == PatternSupport::Supported && m(p.pattern.source@, name) == Some(true)
}

/// Whether a pattern is supported and known to miss `name`.
pub open spec fn pattern_misses(p: PatternProperty, name: Seq<char>, m: spec_fn(Seq<char>, Seq<char>) -> Option<bool>) -> bool {
    p.pattern.support == PatternSupport::Supported && m(p.pattern.source@, name) == Some(false)
}

/// Whether schema `s` rejects every object with member `name`: `false`; a
/// `const` or `enum` none of whose values is such an object; an object
/// schema (see `object_forbids`); an `allOf` with such a conjunct; a
/// non-empty `anyOf`/`oneOf` of such branches; an `if` with both branches
/// such; `not` of a schema that accepts every object with `name`.
pub open spec fn forbids(s: SchemaNode, name: Seq<char>, m: spec_fn(Seq<char>, Seq<char>) -> Option<bool>,
    ev: spec_fn(SchemaNode, JsonValue) -> bool) -> bool
    decreases s,
{
    match s.kind {
        SchemaNodeKind::BoolSchema(b) => !b,
        SchemaNodeKind::Const(v) => !object_with(v, name),
        SchemaNodeKind::Enum(values) => forall|i: int| 0 <= i < values@.len() ==> !object_with(#[trigger] values@[i], name),
        SchemaNodeKind::Object { .. } => object_forbids(s, name, m, ev),
        SchemaNodeKind::AllOf(children) => exists|i: int| 0 <= i < children@.len() && forbids(#[trigger] children@[i], name, m, ev),
        SchemaNodeKind::AnyOf(children) => children@.len() > 0
            && forall|i: int| 0 <= i < children@.len() ==> forbids(#[trigger] children@[i], name, m, ev),
        SchemaNodeKind::OneOf(children) => children@.len() > 0
            && forall|i: int| 0 <= i < children@.len() ==> forbids(#[trigger] children@[i], name, m, ev),
        SchemaNodeKind::IfThenElse { then_schema, else_schema, .. } => match (then_schema, else_schema) {
            (Some(t), Some(e)) => forbids(*t, name, m, ev) && forbids(*e, name, m, ev),
            _ => false,
        },
        SchemaNodeKind::Not(child) => accepts_all_with(*child, name),
        _ => false,
    }
}

/// Whether `value` is an object with member `name`.
fn value_is_object_with(value: &JsonValue, name: &str) -> (r: bool)
    ensures
        r == object_with(*value, name@),
{
    match value.as_object() {
        Some(members) => object_contains_key(members, name),
        None => false,
    }
}

/// Whether some `properties` entry named `name` has a locally empty schema.
fn declared_with_empty_schema<G: Fn(&SchemaNode, &JsonValue) -> bool>(properties: &Vec<(String, SchemaNode)>, name: &str, evaluator: &G)
    -> (r: bool)
    requires
        evaluator_callable(*evaluator),
    ensures
        forall|ev: spec_fn(SchemaNode, JsonValue) -> bool| #[trigger] evaluator_agrees(*evaluator, ev)
            ==> r == exists|j: int| 0 <= j < properties@.len() && (#[trigger] properties@[j]).0@ == name@
                && locally_empty(properties@[j].1, ev),
{
    let mut i: usize = 0;
    while i < properties.len()
        invariant
            i <= properties@.len(),
            evaluator_callable(*evaluator),
            forall|ev: spec_fn(SchemaNode, JsonValue) -> bool, j: int| #[trigger] evaluator_agrees(*evaluator, ev)
                && 0 <= j < i && (#[trigger] properties@[j]).0@ == name@ ==> !locally_empty(properties@[j].1, ev),
        decreases properties@.len() - i,
    {
        if str_eq(properties[i].0.as_str(), name) {
            let empty = schema_is_locally_empty_for_finite_enumeration(&properties[i].1, evaluator);
            if empty {
                proof {
                    assert forall|ev: spec_fn(SchemaNode, JsonValue) -> bool| #[trigger] evaluator_agrees(*evaluator, ev)
                        implies exists|j: int| 0 <= j < properties@.len() && (#[trigger] properties@[j]).0@ == name@
                            && locally_empty(properties@[j].1, ev) by {
                        assert(locally_empty(properties@[i as int].1, ev));
                    }
                }
                return true;
            }
        }
        i = i + 1;
    }
    false
}

/// Whether a supported pattern known to match `name` has a locally empty
/// schema.
fn matching_pattern_with_empty_schema<F: Fn(&str, &str) -> Option<bool>, G: Fn(&SchemaNode, &JsonValue) -> bool>(
    patterns: &Vec<PatternProperty>, name: &str, matcher: &F, evaluator: &G) -> (r: bool)
    requires
        matcher_callable(*matcher),
        evaluator_callable(*evaluator),
    ensures
        forall|m: spec_fn(Seq<char>, Seq<char>) -> Option<bool>, ev: spec_fn(SchemaNode, JsonValue) -> bool|
            #[trigger] oracles_agree(*matcher, *evaluator, m, ev)
            ==> r == exists|j: int| 0 <= j < patterns@.len() && pattern_hits(#[trigger] patterns@[j], name@, m)
                && locally_empty(patterns@[j].schema, ev),
{
    let mut i: usize = 0;
    while i < patterns.len()
        invariant
            i <= patterns@.len(),
            matcher_callable(*matcher),
            evaluator_callable(*evaluator),
            forall|m: spec_fn(Seq<char>, Seq<char>) -> Option<bool>, ev: spec_fn(SchemaNode, JsonValue) -> bool, j: int|
                #[trigger] oracles_agree(*matcher, *evaluator, m, ev) && 0 <= j < i
                ==> !(pattern_hits(#[trigger] patterns@[j], name@, m) && locally_empty(patterns@[j].schema, ev)),
        decreases patterns@.len() - i,
    {
        let p = &patterns[i];
        let hit = if p.pattern.support == PatternSupport::Supported {
            let source = p.pattern.source.as_str();
            let answer = matcher(source, name);
            proof {
                assert forall|m: spec_fn(Seq<char>, Seq<char>) -> Option<bool>| #[trigger] matcher_agrees(*matcher, m)
                    implies answer == m(p.pattern.source@, name@) by {
                    assert((*matcher).ensures((source, name), answer));
                }
            }
            answer == Some(true)
        } else {
            false
        };
        let empty = if hit {
            schema_is_locally_empty_for_finite_enumeration(&p.schema, evaluator)
        } else {
            false
        };
        proof {
            assert forall|m: spec_fn(Seq<char>, Seq<char>) -> Option<bool>, ev: spec_fn(SchemaNode, JsonValue) -> bool|
                #[trigger] oracles_agree(*matcher, *evaluator, m, ev)
                implies (hit && empty) == (pattern_hits(patterns@[i as int], name@, m) && locally_empty(patterns@[i as int].schema, ev)) by {
                assert(matcher_agrees(*matcher, m));
                assert(evaluator_agrees(*evaluator, ev));
            }
        }
        if hit && empty {
            proof {
                assert forall|m: spec_fn(Seq<char>, Seq<char>) -> Option<bool>, ev: spec_fn(SchemaNode, JsonValue) -> bool|
                    #[trigger] oracles_agree(*matcher, *evaluator, m, ev)
                    implies exists|j: int| 0 <= j < patterns@.len() && pattern_hits(#[trigger] patterns@[j], name@, m)
                        && locally_empty(patterns@[j].schema, ev) by {
                    assert(pattern_hits(patterns@[i as int], name@, m));
                }
            }
            return true;
        }
        i = i + 1;
    }
    false
}

/// Whether every pattern is supported and known to miss `name`.
fn all_patterns_miss<F: Fn(&str, &str) -> Option<bool>>(patterns: &Vec<PatternProperty>, name: &str, matcher: &F) -> (r: bool)
    requires
        matcher_callable(*matcher),
    ensures
        forall|m: spec_fn(Seq<char>, Seq<char>) -> Option<bool>| #[trigger] matcher_agrees(*matcher, m)
            ==> r == forall|j: int| 0 <= j < patterns@.len() ==> pattern_misses(#[trigger] patterns@[j], name@, m),
{
    let mut i: usize = 0;
    while i < patterns.len()
        invariant
            i <= patterns@.len(),
            matcher_callable(*matcher),
            forall|m: spec_fn(Seq<char>, Seq<char>) -> Option<bool>, j: int| #[trigger] matcher_agrees(*matcher, m)
                && 0 <= j < i ==> pattern_misses(#[trigger] patterns@[j], name@, m),
        decreases patterns@.len() - i,
    {
        let p = &patterns[i];
        if p.pattern.support != PatternSupport::Supported {
            proof {
                assert forall|m: spec_fn(Seq<char>, Seq<char>) -> Option<bool>| #[trigger] matcher_agrees(*matcher, m)
                    implies !forall|j: int| 0 <= j < patterns@.len() ==> pattern_misses(#[trigger] patterns@[j], name@, m) by {
                    assert(!pattern_misses(patterns@[i as int], name@, m));
                }
            }
            return false;
        }
        let source = p.pattern.source.as_str();
        let answer = matcher(source, name);
        proof {
            assert forall|m: spec_fn(Seq<char>, Seq<char>) -> Option<bool>| #[trigger] matcher_agrees(*matcher, m)
                implies answer == m(p.pattern.source@, name@) by {
                assert((*matcher).ensures((source, name), answer));
            }
        }
        if answer != Some(false) {
            proof {
                assert forall|m: spec_fn(Seq<char>, Seq<char>) -> Option<bool>| #[trigger] matcher_agrees(*matcher, m)
                    implies !forall|j: int| 0 <= j < patterns@.len() ==> pattern_misses(#[trigger] patterns@[j], name@, m) by {
                    assert(!pattern_misses(patterns@[i as int], name@, m));
                }
            }
            return false;
        }
        proof {
            assert forall|m: spec_fn(Seq<char>, Seq<char>) -> Option<bool>, j: int| #[trigger] matcher_agrees(*matcher, m)
                && 0 <= j < i + 1 implies pattern_misses(#[trigger] patterns@[j], name@, m) by {
            }
        }
        i = i + 1;
    }
    true
}

/// Whether some `properties` entry is named `name`.
fn declares(properties: &Vec<(String, SchemaNode)>, name: &str) -> (r: bool)
    ensures
        r == declared_name(properties@, name@),
{
    let mut i: usize = 0;
    while i < properties.len()
        invariant
            i <= properties@.len(),
            forall|j: int| 0 <= j < i ==> (#[trigger] properties@[j]).0@ != name@,
        decreases properties@.len() - i,
    {
        if str_eq(properties[i].0.as_str(), name) {
            return true;
        }
        i = i + 1;
    }
    false
}

/// Whether the object schema `schema` rejects every object with member
/// `name` (see `object_forbids`).
fn object_forbids_name<F: Fn(&str, &str) -> Option<bool>, G: Fn(&SchemaNode, &JsonValue) -> bool>(
    schema: &SchemaNode, name: &str, matcher: &F, evaluator: &G) -> (r: bool)
    requires
        matcher_callable(*matcher),
        evaluator_callable(*evaluator),
    ensures
        forall|m: spec_fn(Seq<char>, Seq<char>) -> Option<bool>, ev: spec_fn(SchemaNode, JsonValue) -> bool|
            #[trigger] oracles_agree(*matcher, *evaluator, m, ev) ==> r == object_forbids(*schema, name@, m, ev),
{
    match &schema.kind {
        SchemaNodeKind::Object { properties, pattern_properties, additional, property_names, property_count, .. } => {
            let capped = match property_count.max {
                Some(mx) => if mx == 0 {
                    true
                } else {
                    let guaranteed = guaranteed_property_name_closure(schema);
                    proof { lemma_distinct_name_set_len(guaranteed@); }
                    !names_contain(&guaranteed, name) && guaranteed.len() >= mx
                },
                None => false,
            };
            if capped {
                return true;
            }
            let declared_empty = declared_with_empty_schema(properties, name, evaluator);
            if declared_empty {
                proof {
                    assert forall|m: spec_fn(Seq<char>, Seq<char>) -> Option<bool>, ev: spec_fn(SchemaNode, JsonValue) -> bool|
                        #[trigger] oracles_agree(*matcher, *evaluator, m, ev) implies object_forbids(*schema, name@, m, ev) by {
                        assert(evaluator_agrees(*evaluator, ev));
                    }
                }
                return true;
            }
            let pattern_empty = matching_pattern_with_empty_schema(pattern_properties, name, matcher, evaluator);
            if pattern_empty {
                return true;
            }
            let name_rejected = string_literal_definitely_rejected(property_names, name, matcher);
            if name_rejected {
                proof {
                    assert forall|m: spec_fn(Seq<char>, Seq<char>) -> Option<bool>, ev: spec_fn(SchemaNode, JsonValue) -> bool|
                        #[trigger] oracles_agree(*matcher, *evaluator, m, ev) implies object_forbids(*schema, name@, m, ev) by {
                        assert(matcher_agrees(*matcher, m));
                        assert(literal_rejected(**property_names, name@, m));
                    }
                }
                return true;
            }
            let r = if declares(properties, name) {
                false
            } else if !all_patterns_miss(pattern_properties, name, matcher) {
                false
            } else {
                schema_is_locally_empty_for_finite_enumeration(additional, evaluator)
            };
            proof {
                assert forall|m: spec_fn(Seq<char>, Seq<char>) -> Option<bool>, ev: spec_fn(SchemaNode, JsonValue) -> bool|
                    #[trigger] oracles_agree(*matcher, *evaluator, m, ev) implies r == object_forbids(*schema, name@, m, ev) by {
                    assert(matcher_agrees(*matcher, m));
                    assert(evaluator_agrees(*evaluator, ev));
                    assert(!literal_rejected(**property_names, name@, m));
                    assert(locally_empty(**additional, ev) == locally_empty(**additional, ev));
                }
            }
            r
        },
        _ => false,
    }
}

/// Whether every value of `values` is not an object with member `name`.
fn no_object_with(values: &Vec<JsonValue>, name: &str) -> (r: bool)
    ensures
        r == forall|i: int| 0 <= i < values@.len() ==> !object_with(#[trigger] values@[i], name@),
{
    let mut i: usize = 0;
    while i < values.len()
        invariant
            i <= values@.len(),
            forall|j: int| 0 <= j < i ==> !object_with(#[trigger] values@[j], name@),
        decreases values@.len() - i,
    {
        if value_is_object_with(&values[i], name) {
            return false;
        }
        i = i + 1;
    }
    true
}

/// Whether `schema` rejects every object with member `name` (see
/// `forbids`); `matcher(pattern, text)` answers supported patterns and
/// `evaluator(schema, value)` says whether a schema accepts a value.
pub fn schema_forbids_property_name<F: Fn(&str, &str) -> Option<bool>, G: Fn(&SchemaNode, &JsonValue) -> bool>(
    schema: &SchemaNode, name: &str, matcher: &F, evaluator: &G) -> (r: bool)
    requires
        matcher_callable(*matcher),
        evaluator_callable(*evaluator),
    ensures
        forall|m: spec_fn(Seq<char>, Seq<char>) -> Option<bool>, ev: spec_fn(SchemaNode, JsonValue) -> bool|
            #[trigger] oracles_agree(*matcher, *evaluator, m, ev) ==> r == forbids(*schema, name@, m, ev),
    decreases *schema, 1nat,
{
    match &schema.kind {
        SchemaNodeKind::BoolSchema(b) => !*b,
        SchemaNodeKind::Const(value) => !value_is_object_with(value, name),
        SchemaNodeKind::Enum(values) => no_object_with(values, name),
        SchemaNodeKind::Object { .. } => object_forbids_name(schema, name, matcher, evaluator),
        SchemaNodeKind::AllOf(children) => {
            let mut i: usize = 0;
            while i < children.len()
                invariant
                    i <= children@.len(),
                    schema.kind == SchemaNodeKind::AllOf(*children),
                    matcher_callable(*matcher),
                    evaluator_callable(*evaluator),
                    forall|m: spec_fn(Seq<char>, Seq<char>) -> Option<bool>, ev: spec_fn(SchemaNode, JsonValue) -> bool, j: int|
                        oracles_agree(*matcher, *evaluator, m, ev) && 0 <= j < i ==> !#[trigger] forbids(children@[j], name@, m, ev),
                decreases children@.len() - i,
            {
                proof {
                    assert(decreases_to!(*schema => schema.kind));
                    assert(decreases_to!(schema.kind => schema.kind->AllOf_0));
                    assert(decreases_to!(*children => children[i as int]));
                }
                if schema_forbids_property_name(&children[i], name, matcher, evaluator) {
                    proof {
                        assert forall|m: spec_fn(Seq<char>, Seq<char>) -> Option<bool>, ev: spec_fn(SchemaNode, JsonValue) -> bool|
                            #[trigger] oracles_agree(*matcher, *evaluator, m, ev) implies forbids(*schema, name@, m, ev) by {
                            assert(forbids(children@[i as int], name@, m, ev));
                        }
                    }
                    return true;
                }
                i = i + 1;
            }
            proof {
                assert forall|m: spec_fn(Seq<char>, Seq<char>) -> Option<bool>, ev: spec_fn(SchemaNode, JsonValue) -> bool|
                    #[trigger] oracles_agree(*matcher, *evaluator, m, ev) implies !forbids(*schema, name@, m, ev) by {
                    if forbids(*schema, name@, m, ev) {
                        let k = choose|k: int| 0 <= k < children@.len() && forbids(#[trigger] children@[k], name@, m, ev);
                        assert(!forbids(children@[k], name@, m, ev));
                    }
                }
            }
            false
        },
        SchemaNodeKind::AnyOf(children) => every_branch_forbids(schema, children, name, matcher, evaluator),
        SchemaNodeKind::OneOf(children) => every_branch_forbids(schema, children, name, matcher, evaluator),
        SchemaNodeKind::IfThenElse { then_schema, else_schema, .. } => match (then_schema, else_schema) {
            (Some(then_schema), Some(else_schema)) => {
                schema_forbids_property_name(then_schema, name, matcher, evaluator)
                    && schema_forbids_property_name(else_schema, name, matcher, evaluator)
            },
            _ => false,
        },
        SchemaNodeKind::Not(child) => schema_accepts_all_objects_with_property(child, name),
        _ => false,
    }
}

/// Whether the union `schema` with branches `children` has branches and
/// every one forbids `name`.
fn every_branch_forbids<F: Fn(&str, &str) -> Option<bool>, G: Fn(&SchemaNode, &JsonValue) -> bool>(
    schema: &SchemaNode, children: &Vec<SchemaNode>, name: &str, matcher: &F, evaluator: &G) -> (r: bool)
    requires
        matcher_callable(*matcher),
        evaluator_callable(*evaluator),
        schema.kind == SchemaNodeKind::AnyOf(*children) || schema.kind == SchemaNodeKind::OneOf(*children),
    ensures
        forall|m: spec_fn(Seq<char>, Seq<char>) -> Option<bool>, ev: spec_fn(SchemaNode, JsonValue) -> bool|
            #[trigger] oracles_agree(*matcher, *evaluator, m, ev) ==> r == forbids(*schema, name@, m, ev),
    decreases *schema, 0nat,
{
    if children.len() == 0 {
        return false;
    }
    let mut i: usize = 0;
    while i < children.len()
        invariant
            i <= children@.len(),
            schema.kind == SchemaNodeKind::AnyOf(*children) || schema.kind == SchemaNodeKind::OneOf(*children),
            matcher_callable(*matcher),
            evaluator_callable(*evaluator),
            forall|m: spec_fn(Seq<char>, Seq<char>) -> Option<bool>, ev: spec_fn(SchemaNode, JsonValue) -> bool, j: int|
                oracles_agree(*matcher, *evaluator, m, ev) && 0 <= j < i ==> #[trigger] forbids(children@[j], name@, m, ev),
        decreases children@.len() - i,
    {
        proof {
            assert(decreases_to!(*schema => schema.kind));
            if schema.kind == SchemaNodeKind::AnyOf(*children) {
                assert(decreases_to!(schema.kind => schema.kind->AnyOf_0));
            } else {
                assert(decreases_to!(schema.kind => schema.kind->OneOf_0));
            }
            assert(decreases_to!(*children => children[i as int]));
        }
        if !schema_forbids_property_name(&children[i], name, matcher, evaluator) {
            proof {
                assert forall|m: spec_fn(Seq<char>, Seq<char>) -> Option<bool>, ev: spec_fn(SchemaNode, JsonValue) -> bool|
                    #[trigger] oracles_agree(*matcher, *evaluator, m, ev) implies !forbids(*schema, name@, m, ev) by {
                    assert(!forbids(children@[i as int], name@, m, ev));
                }
            }
            return false;
        }
        i = i + 1;
    }
    proof {
        assert forall|m: spec_fn(Seq<char>, Seq<char>) -> Option<bool>, ev: spec_fn(SchemaNode, JsonValue) -> bool|
            #[trigger] oracles_agree(*matcher, *evaluator, m, ev) implies forbids(*schema, name@, m, ev) by {
            assert forall|k: int| 0 <= k < children@.len() implies forbids(#[trigger] children@[k], name@, m, ev) by {
                assert(forbids(children@[k], name@, m, ev));
            }
        }
    }
    true
}

/// An object schema that forbids `name` accepts no object with that member.
proof fn lemma_object_forbids_sound(s: SchemaNode, members: Vec<(String, JsonValue)>, name: Seq<char>,
    m: spec_fn(Seq<char>, Seq<char>) -> Option<bool>, ev: spec_fn(SchemaNode, JsonValue) -> bool,
    rx: spec_fn(Seq<char>, Seq<char>) -> bool)
    requires
        answers_follow(m, rx),
        evaluator_sound(ev, rx),
        object_forbids(s, name, m, ev),
        members_have_key(members@, name),
    ensures
        !accepts(s, JsonValue::Object(members), rx),
{
    let v = JsonValue::Object(members);
    let k = choose|k: int| 0 <= k < members@.len() && (#[trigger] members@[k]).0@ == name;
    match s.kind {
        SchemaNodeKind::Object { properties, pattern_properties, additional, property_names, property_count, .. } => {
            if accepts(s, v, rx) {
                if property_count.max matches Some(mx) && !guaranteed_names(s).contains(name)
                    && guaranteed_names(s).finite() && guaranteed_names(s).len() >= mx {
                    lemma_guaranteed_names_present(s, v, rx);
                    lemma_member_names_len(members@);
                    assert(member_names(members@).contains(name));
                    assert(guaranteed_names(s).insert(name).subset_of(member_names(members@)));
                    vstd::set_lib::lemma_len_subset(guaranteed_names(s).insert(name), member_names(members@));
                }
                if exists|j: int| 0 <= j < properties@.len() && (#[trigger] properties@[j]).0@ == name
                    && locally_empty(properties@[j].1, ev) {
                    let j = choose|j: int| 0 <= j < properties@.len() && (#[trigger] properties@[j]).0@ == name
                        && locally_empty(properties@[j].1, ev);
                    assert(members@[k].0@ == properties@[j].0@);
                    lemma_locally_empty_sound(properties@[j].1, members@[k].1, ev, rx);
                }
                if exists|j: int| 0 <= j < pattern_properties@.len() && pattern_hits(#[trigger] pattern_properties@[j], name, m)
                    && locally_empty(pattern_properties@[j].schema, ev) {
                    let j = choose|j: int| 0 <= j < pattern_properties@.len() && pattern_hits(#[trigger] pattern_properties@[j], name, m)
                        && locally_empty(pattern_properties@[j].schema, ev);
                    assert(m(pattern_properties@[j].pattern.source@, name) matches Some(b));
                    assert(rx(pattern_properties@[j].pattern.source@, members@[k].0@));
                    lemma_locally_empty_sound(pattern_properties@[j].schema, members@[k].1, ev, rx);
                }
                if literal_rejected(*property_names, name, m) {
                    assert(accepts(*property_names, JsonValue::String(members@[k].0), rx));
                    lemma_literal_rejected_sound(*property_names, members@[k].0, m, rx);
                }
                if !declared_name(properties@, name)
                    && (forall|j: int| 0 <= j < pattern_properties@.len() ==> pattern_misses(#[trigger] pattern_properties@[j], name, m))
                    && locally_empty(*additional, ev) {
                    assert(!pattern_named(pattern_properties@, members@[k].0@, rx)) by {
                        if pattern_named(pattern_properties@, members@[k].0@, rx) {
                            let j = choose|j: int| 0 <= j < pattern_properties@.len()
                                && rx((#[trigger] pattern_properties@[j]).pattern.source@, members@[k].0@);
                            assert(pattern_misses(pattern_properties@[j], name, m));
                            assert(m(pattern_properties@[j].pattern.source@, name) matches Some(b));
                        }
                    }
                    lemma_locally_empty_sound(*additional, members@[k].1, ev, rx);
                }
            }
        },
        _ => {},
    }
}

/// Law: a schema that forbids member `name` accepts no object carrying it,
/// under every regex semantics and evaluator the oracles' answers are sound
/// for.
pub proof fn lemma_forbids_sound(s: SchemaNode, members: Vec<(String, JsonValue)>, name: Seq<char>,
    m: spec_fn(Seq<char>, Seq<char>) -> Option<bool>, ev: spec_fn(SchemaNode, JsonValue) -> bool,
    rx: spec_fn(Seq<char>, Seq<char>) -> bool)
    requires
        answers_follow(m, rx),
        evaluator_sound(ev, rx),
        forbids(s, name, m, ev),
        members_have_key(members@, name),
    ensures
        !accepts(s, JsonValue::Object(members), rx),
    decreases s,
{
    let v = JsonValue::Object(members);
    let k = choose|k: int| 0 <= k < members@.len() && (#[trigger] members@[k]).0@ == name;
    match s.kind {
        SchemaNodeKind::Const(c) => {
            if accepts(s, v, rx) {
                assert(crate::json::json_eq(v, c));
                assert(members_have_key(c->Object_0@, members@[k].0@));
            }
        },
        SchemaNodeKind::Enum(values) => {
            if accepts(s, v, rx) {
                let i = choose|i: int| 0 <= i < values@.len() && crate::json::json_eq(v, #[trigger] values@[i]);
                assert(members_have_key(values@[i]->Object_0@, members@[k].0@));
                assert(object_with(values@[i], name));
            }
        },
        SchemaNodeKind::Object { .. } => {
            lemma_object_forbids_sound(s, members, name, m, ev, rx);
        },
        SchemaNodeKind::AllOf(children) => {
            let i = choose|i: int| 0 <= i < children@.len() && forbids(#[trigger] children@[i], name, m, ev);
            lemma_forbids_sound(children@[i], members, name, m, ev, rx);
        },
        SchemaNodeKind::AnyOf(children) => {
            if accepts(s, v, rx) {
                let i = choose|i: int| 0 <= i < children@.len() && accepts(#[trigger] children@[i], v, rx);
                assert(forbids(children@[i], name, m, ev));
                lemma_forbids_sound(children@[i], members, name, m, ev, rx);
            }
        },
        SchemaNodeKind::OneOf(children) => {
            if accepts(s, v, rx) {
                let i = choose|i: int| 0 <= i < children@.len() && accepts(#[trigger] children@[i], v, rx)
                    && forall|j: int| 0 <= j < children@.len() && j != i ==> !accepts(#[trigger] children@[j], v, rx);
                assert(forbids(children@[i], name, m, ev));
                lemma_forbids_sound(children@[i], members, name, m, ev, rx);
            }
        },
        SchemaNodeKind::IfThenElse { then_schema, else_schema, .. } => match (then_schema, else_schema) {
            (Some(t), Some(e)) => {
                lemma_forbids_sound(*t, members, name, m, ev, rx);
                lemma_forbids_sound(*e, members, name, m, ev, rx);
            },
            _ => {},
        },
        SchemaNodeKind::Not(child) => {
            lemma_accepts_all_with_sound(*child, name, members, rx);
        },
        _ => {},
    }
}

/// The object-scoped variant of `forbids`: like it on `false`, `const`,
/// `enum`, object schemas and `allOf`; a union forbids `name` when every
/// branch that may accept objects does; an `if` with both branches forbids
/// it when both do, and with one branch when the condition decides every
/// object towards that branch and the branch forbids it.
pub open spec fn forbids_in_objects(s: SchemaNode, name: Seq<char>, m: spec_fn(Seq<char>, Seq<char>) -> Option<bool>,
    ev: spec_fn(SchemaNode, JsonValue) -> bool) -> bool
    decreases s,
{
    match s.kind {
        SchemaNodeKind::BoolSchema(b) => !b,
        SchemaNodeKind::Const(v) => !object_with(v, name),
        SchemaNodeKind::Enum(values) => forall|i: int| 0 <= i < values@.len() ==> !object_with(#[trigger] values@[i], name),
        SchemaNodeKind::Object { .. } => object_forbids(s, name, m, ev),
        SchemaNodeKind::AllOf(children) => exists|i: int| 0 <= i < children@.len()
            && forbids_in_objects(#[trigger] children@[i], name, m, ev),
        SchemaNodeKind::AnyOf(children) => forall|i: int| 0 <= i < children@.len() && may_have_type(#[trigger] children@[i], JSON_TYPE_OBJECT)
            ==> forbids_in_objects(children@[i], name, m, ev),
        SchemaNodeKind::OneOf(children) => forall|i: int| 0 <= i < children@.len() && may_have_type(#[trigger] children@[i], JSON_TYPE_OBJECT)
            ==> forbids_in_objects(children@[i], name, m, ev),
        SchemaNodeKind::IfThenElse { if_schema, then_schema, else_schema } => match (then_schema, else_schema) {
            (Some(t), Some(e)) => forbids_in_objects(*t, name, m, ev) && forbids_in_objects(*e, name, m, ev),
            (Some(t), None) => obviously_accepts_type(*if_schema, JSON_TYPE_OBJECT) && forbids_in_objects(*t, name, m, ev),
            (None, Some(e)) => !may_have_type(*if_schema, JSON_TYPE_OBJECT) && forbids_in_objects(*e, name, m, ev),
            (None, None) => false,
        },
        _ => false,
    }
}

/// The object-scoped test without the general one (see `forbids_in_objects`).
fn forbids_in_objects_only<F: Fn(&str, &str) -> Option<bool>, G: Fn(&SchemaNode, &JsonValue) -> bool>(
    schema: &SchemaNode, name: &str, matcher: &F, evaluator: &G) -> (r: bool)
    requires
        matcher_callable(*matcher),
        evaluator_callable(*evaluator),
    ensures
        forall|m: spec_fn(Seq<char>, Seq<char>) -> Option<bool>, ev: spec_fn(SchemaNode, JsonValue) -> bool|
            #[trigger] oracles_agree(*matcher, *evaluator, m, ev) ==> r == forbids_in_objects(*schema, name@, m, ev),
    decreases *schema, 1nat,
{
    match &schema.kind {
        SchemaNodeKind::BoolSchema(b) => !*b,
        SchemaNodeKind::Const(value) => !value_is_object_with(value, name),
        SchemaNodeKind::Enum(values) => no_object_with(values, name),
        SchemaNodeKind::Object { .. } => object_forbids_name(schema, name, matcher, evaluator),
        SchemaNodeKind::AllOf(children) => {
            let mut i: usize = 0;
            while i < children.len()
                invariant
                    i <= children@.len(),
                    schema.kind == SchemaNodeKind::AllOf(*children),
                    matcher_callable(*matcher),
                    evaluator_callable(*evaluator),
                    forall|m: spec_fn(Seq<char>, Seq<char>) -> Option<bool>, ev: spec_fn(SchemaNode, JsonValue) -> bool, j: int|
                        oracles_agree(*matcher, *evaluator, m, ev) && 0 <= j < i ==> !#[trigger] forbids_in_objects(children@[j], name@, m, ev),
                decreases children@.len() - i,
            {
                proof {
                    assert(decreases_to!(*schema => schema.kind));
                    assert(decreases_to!(schema.kind => schema.kind->AllOf_0));
                    assert(decreases_to!(*children => children[i as int]));
                }
                if forbids_in_objects_only(&children[i], name, matcher, evaluator) {
                    proof {
                        assert forall|m: spec_fn(Seq<char>, Seq<char>) -> Option<bool>, ev: spec_fn(SchemaNode, JsonValue) -> bool|
                            #[trigger] oracles_agree(*matcher, *evaluator, m, ev) implies forbids_in_objects(*schema, name@, m, ev) by {
                            assert(forbids_in_objects(children@[i as int], name@, m, ev));
                        }
                    }
                    return true;
                }
                i = i + 1;
            }
            proof {
                assert forall|m: spec_fn(Seq<char>, Seq<char>) -> Option<bool>, ev: spec_fn(SchemaNode, JsonValue) -> bool|
                    #[trigger] oracles_agree(*matcher, *evaluator, m, ev) implies !forbids_in_objects(*schema, name@, m, ev) by {
                    if forbids_in_objects(*schema, name@, m, ev) {
                        let k = choose|k: int| 0 <= k < children@.len() && forbids_in_objects(#[trigger] children@[k], name@, m, ev);
                        assert(!forbids_in_objects(children@[k], name@, m, ev));
                    }
                }
            }
            false
        },
        SchemaNodeKind::AnyOf(children) => object_branches_forbid(schema, children, name, matcher, evaluator),
        SchemaNodeKind::OneOf(children) => object_branches_forbid(schema, children, name, matcher, evaluator),
        SchemaNodeKind::IfThenElse { if_schema, then_schema, else_schema } => match (then_schema, else_schema) {
            (Some(then_schema), Some(else_schema)) => {
                forbids_in_objects_only(then_schema, name, matcher, evaluator)
                    && forbids_in_objects_only(else_schema, name, matcher, evaluator)
            },
            (Some(then_schema), None) => {
                let whole = whole_json_types_accepted_mask(if_schema);
                proof { crate::bits::lemma_single_bits(JSON_TYPE_OBJECT, JSON_TYPE_OBJECT); }
                whole & JSON_TYPE_OBJECT != 0 && forbids_in_objects_only(then_schema, name, matcher, evaluator)
            },
            (None, Some(else_schema)) => {
                let possible = possible_json_type_mask(if_schema);
                proof { crate::bits::lemma_single_bits(JSON_TYPE_OBJECT, JSON_TYPE_OBJECT); }
                possible & JSON_TYPE_OBJECT == 0 && forbids_in_objects_only(else_schema, name, matcher, evaluator)
            },
            (None, None) => false,
        },
        _ => false,
    }
}

/// Whether every branch of the union `schema` that may accept objects
/// forbids `name` in objects.
fn object_branches_forbid<F: Fn(&str, &str) -> Option<bool>, G: Fn(&SchemaNode, &JsonValue) -> bool>(
    schema: &SchemaNode, children: &Vec<SchemaNode>, name: &str, matcher: &F, evaluator: &G) -> (r: bool)
    requires
        matcher_callable(*matcher),
        evaluator_callable(*evaluator),
        schema.kind == SchemaNodeKind::AnyOf(*children) || schema.kind == SchemaNodeKind::OneOf(*children),
    ensures
        forall|m: spec_fn(Seq<char>, Seq<char>) -> Option<bool>, ev: spec_fn(SchemaNode, JsonValue) -> bool|
            #[trigger] oracles_agree(*matcher, *evaluator, m, ev) ==> r == forbids_in_objects(*schema, name@, m, ev),
    decreases *schema, 0nat,
{
    let mut i: usize = 0;
    while i < children.len()
        invariant
            i <= children@.len(),
            schema.kind == SchemaNodeKind::AnyOf(*children) || schema.kind == SchemaNodeKind::OneOf(*children),
            matcher_callable(*matcher),
            evaluator_callable(*evaluator),
            forall|m: spec_fn(Seq<char>, Seq<char>) -> Option<bool>, ev: spec_fn(SchemaNode, JsonValue) -> bool, j: int|
                oracles_agree(*matcher, *evaluator, m, ev) && 0 <= j < i && may_have_type(children@[j], JSON_TYPE_OBJECT)
                ==> #[trigger] forbids_in_objects(children@[j], name@, m, ev),
        decreases children@.len() - i,
    {
        proof {
            assert(decreases_to!(*schema => schema.kind));
            if schema.kind == SchemaNodeKind::AnyOf(*children) {
                assert(decreases_to!(schema.kind => schema.kind->AnyOf_0));
            } else {
                assert(decreases_to!(schema.kind => schema.kind->OneOf_0));
            }
            assert(decreases_to!(*children => children[i as int]));
        }
        let possible = possible_json_type_mask(&children[i]);
        proof { crate::bits::lemma_single_bits(JSON_TYPE_OBJECT, JSON_TYPE_OBJECT); }
        if possible & JSON_TYPE_OBJECT != 0 {
            if !forbids_in_objects_only(&children[i], name, matcher, evaluator) {
                proof {
                    assert forall|m: spec_fn(Seq<char>, Seq<char>) -> Option<bool>, ev: spec_fn(SchemaNode, JsonValue) -> bool|
                        #[trigger] oracles_agree(*matcher, *evaluator, m, ev) implies !forbids_in_objects(*schema, name@, m, ev) by {
                        assert(!forbids_in_objects(children@[i as int], name@, m, ev));
                    }
                }
                return false;
            }
        }
        i = i + 1;
    }
    proof {
        assert forall|m: spec_fn(Seq<char>, Seq<char>) -> Option<bool>, ev: spec_fn(SchemaNode, JsonValue) -> bool|
            #[trigger] oracles_agree(*matcher, *evaluator, m, ev) implies forbids_in_objects(*schema, name@, m, ev) by {
            assert forall|k: int| 0 <= k < children@.len() && may_have_type(#[trigger] children@[k], JSON_TYPE_OBJECT)
                implies forbids_in_objects(children@[k], name@, m, ev) by {
                assert(forbids_in_objects(children@[k], name@, m, ev));
            }
        }
    }
    true
}

/// Whether `schema` rejects every object with member `name`, by the general
/// test or the object-scoped one; a true answer says nothing of the
/// non-object values `schema` accepts.
pub fn schema_forbids_property_name_for_objects<F: Fn(&str, &str) -> Option<bool>, G: Fn(&SchemaNode, &JsonValue) -> bool>(
    schema: &SchemaNode, name: &str, matcher: &F, evaluator: &G) -> (r: bool)
    requires
        matcher_callable(*matcher),
        evaluator_callable(*evaluator),
    ensures
        forall|m: spec_fn(Seq<char>, Seq<char>) -> Option<bool>, ev: spec_fn(SchemaNode, JsonValue) -> bool|
            #[trigger] oracles_agree(*matcher, *evaluator, m, ev)
            ==> r == (forbids(*schema, name@, m, ev) || forbids_in_objects(*schema, name@, m, ev)),
{
    schema_forbids_property_name(schema, name, matcher, evaluator)
        || forbids_in_objects_only(schema, name, matcher, evaluator)
}

/// Law: a schema that forbids member `name` in objects accepts no object
/// carrying it, under every regex semantics and evaluator the oracles'
/// answers are sound for.
pub proof fn lemma_forbids_in_objects_sound(s: SchemaNode, members: Vec<(String, JsonValue)>, name: Seq<char>,
    m: spec_fn(Seq<char>, Seq<char>) -> Option<bool>, ev: spec_fn(SchemaNode, JsonValue) -> bool,
    rx: spec_fn(Seq<char>, Seq<char>) -> bool)
    requires
        answers_follow(m, rx),
        evaluator_sound(ev, rx),
        forbids_in_objects(s, name, m, ev),
        members_have_key(members@, name),
    ensures
        !accepts(s, JsonValue::Object(members), rx),
    decreases s,
{
    let v = JsonValue::Object(members);
    let k = choose|k: int| 0 <= k < members@.len() && (#[trigger] members@[k]).0@ == name;
    lemma_type_facts_sound(s, v, rx);
    match s.kind {
        SchemaNodeKind::Const(c) => {
            if accepts(s, v, rx) {
                assert(crate::json::json_eq(v, c));
                assert(members_have_key(c->Object_0@, members@[k].0@));
            }
        },
        SchemaNodeKind::Enum(values) => {
            if accepts(s, v, rx) {
                let i = choose|i: int| 0 <= i < values@.len() && crate::json::json_eq(v, #[trigger] values@[i]);
                assert(members_have_key(values@[i]->Object_0@, members@[k].0@));
                assert(object_with(values@[i], name));
            }
        },
        SchemaNodeKind::Object { .. } => {
            lemma_object_forbids_sound(s, members, name, m, ev, rx);
        },
        SchemaNodeKind::AllOf(children) => {
            let i = choose|i: int| 0 <= i < children@.len() && forbids_in_objects(#[trigger] children@[i], name, m, ev);
            lemma_forbids_in_objects_sound(children@[i], members, name, m, ev, rx);
        },
        SchemaNodeKind::AnyOf(children) => {
            if accepts(s, v, rx) {
                let i = choose|i: int| 0 <= i < children@.len() && accepts(#[trigger] children@[i], v, rx);
                lemma_type_facts_sound(children@[i], v, rx);
                assert(forbids_in_objects(children@[i], name, m, ev));
                lemma_forbids_in_objects_sound(children@[i], members, name, m, ev, rx);
            }
        },
        SchemaNodeKind::OneOf(children) => {
            if accepts(s, v, rx) {
                let i = choose|i: int| 0 <= i < children@.len() && accepts(#[trigger] children@[i], v, rx)
                    && forall|j: int| 0 <= j < children@.len() && j != i ==> !accepts(#[trigger] children@[j], v, rx);
                lemma_type_facts_sound(children@[i], v, rx);
                assert(forbids_in_objects(children@[i], name, m, ev));
                lemma_forbids_in_objects_sound(children@[i], members, name, m, ev, rx);
            }
        },
        SchemaNodeKind::IfThenElse { if_schema, then_schema, else_schema } => {
            lemma_type_facts_sound(*if_schema, v, rx);
            match (then_schema, else_schema) {
                (Some(t), Some(e)) => {
                    lemma_forbids_in_objects_sound(*t, members, name, m, ev, rx);
                    lemma_forbids_in_objects_sound(*e, members, name, m, ev, rx);
                },
                (Some(t), None) => {
                    lemma_forbids_in_objects_sound(*t, members, name, m, ev, rx);
                },
                (None, Some(e)) => {
                    lemma_forbids_in_objects_sound(*e, members, name, m, ev, rx);
                },
                (None, None) => {},
            }
        },
        _ => {},
    }
}

} // verus!
