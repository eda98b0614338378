//! Small shape tests on schemas: looking through single-branch applicators,
//! and recognising plain count and range schemas.

use vstd::prelude::*;
use crate::json::JsonValue;
use crate::schema::{SchemaNode, SchemaNodeKind};
use crate::semantics::accepts;
use crate::types::{trivially_universal, schema_is_trivially_universal};

verus! {

/// The schema under any chain of single-branch `allOf`/`anyOf`/`oneOf`.
pub open spec fn unwrap_singletons(s: SchemaNode) -> SchemaNode
    decreases s,
{
    match s.kind {
        SchemaNodeKind::AllOf(children) => if children@.len() == 1 { unwrap_singletons(children@[0]) } else { s },
        SchemaNodeKind::AnyOf(children) => if children@.len() == 1 { unwrap_singletons(children@[0]) } else { s },
        SchemaNodeKind::OneOf(children) => if children@.len() == 1 { unwrap_singletons(children@[0]) } else { s },
        _ => s,
    }
}

/// Looks through single-branch `allOf`/`anyOf`/`oneOf` wrappers.
pub fn unwrap_singleton_applicators(node: &SchemaNode) -> (r: &SchemaNode)
    ensures
        *r == unwrap_singletons(*node),
    decreases *node,
{
    match &node.kind {
        SchemaNodeKind::AllOf(children) => if children.len() == 1 {
            unwrap_singleton_applicators(&children[0])
        } else {
            node
        },
        SchemaNodeKind::AnyOf(children) => if children.len() == 1 {
            unwrap_singleton_applicators(&children[0])
        } else {
            node
        },
        SchemaNodeKind::OneOf(children) => if children.len() == 1 {
            unwrap_singleton_applicators(&children[0])
        } else {
            node
        },
        _ => node,
    }
}

/// Law: a single-branch applicator accepts exactly what its branch accepts.
pub proof fn lemma_unwrap_singletons_accepts(s: SchemaNode, v: JsonValue, rx: spec_fn(Seq<char>, Seq<char>) -> bool)
    ensures
        accepts(unwrap_singletons(s), v, rx) == accepts(s, v, rx),
    decreases s,
{
    match s.kind {
        SchemaNodeKind::AllOf(children) => if children@.len() == 1 {
            lemma_unwrap_singletons_accepts(children@[0], v, rx);
            if accepts(children@[0], v, rx) {
                assert forall|i: int| 0 <= i < children@.len() implies accepts(#[trigger] children@[i], v, rx) by {
                    assert(i == 0);
                }
            }
        },
        SchemaNodeKind::AnyOf(children) => if children@.len() == 1 {
            lemma_unwrap_singletons_accepts(children@[0], v, rx);
            if accepts(s, v, rx) {
                let i = choose|i: int| 0 <= i < children@.len() && accepts(#[trigger] children@[i], v, rx);
                assert(i == 0);
            }
        },
        SchemaNodeKind::OneOf(children) => if children@.len() == 1 {
            lemma_unwrap_singletons_accepts(children@[0], v, rx);
            if accepts(children@[0], v, rx) {
                assert(forall|j: int| 0 <= j < children@.len() && j != 0 ==> !accepts(#[trigger] children@[j], v, rx));
            }
            if accepts(s, v, rx) {
                let i = choose|i: int| 0 <= i < children@.len() && accepts(#[trigger] children@[i], v, rx)
                    && forall|j: int| 0 <= j < children@.len() && j != i ==> !accepts(#[trigger] children@[j], v, rx);
                assert(i == 0);
            }
        },
        _ => {},
    }
}

/// An array schema constrained by its item count alone: no `prefixItems`,
/// universal `items`, no `contains`, no `uniqueItems`, no enumeration.
pub open spec fn plain_count_array(s: SchemaNode) -> bool {
    match s.kind {
        SchemaNodeKind::Array { prefix_items, items, contains, unique_items, enumeration, .. } =>
            prefix_items@.len() == 0 && trivially_universal(*items) && contains is None && !unique_items
                && enumeration is None,
        _ => false,
    }
}

/// Whether `schema` is an array schema constrained by its item count alone.
pub fn array_schema_is_plain_count(schema: &SchemaNode) -> (r: bool)
    ensures
        r == plain_count_array(*schema),
{
    match &schema.kind {
        SchemaNodeKind::Array { prefix_items, items, contains, unique_items, enumeration, .. } => {
            prefix_items.len() == 0 && schema_is_trivially_universal(items) && contains.is_none() && !*unique_items
                && enumeration.is_none()
        },
        _ => false,
    }
}

/// An object schema constrained by its property count alone: no declared,
/// pattern or required properties, universal `additionalProperties` and
/// `propertyNames`, no `dependentRequired`, no enumeration.
pub open spec fn plain_count_object(s: SchemaNode) -> bool {
    match s.kind {
        SchemaNodeKind::Object { properties, pattern_properties, required, additional, property_names,
            dependent_required, enumeration, .. } =>
            properties@.len() == 0 && pattern_properties@.len() == 0 && required@.len() == 0
                && trivially_universal(*additional) && trivially_universal(*property_names)
                && dependent_required@.len() == 0 && enumeration is None,
        _ => false,
    }
}

/// Whether `schema` is an object schema constrained by its property count alone.
pub fn object_schema_is_plain_count(schema: &SchemaNode) -> (r: bool)
    ensures
        r == plain_count_object(*schema),
{
    match &schema.kind {
        SchemaNodeKind::Object { properties, pattern_properties, required, additional, property_names,
            dependent_required, enumeration, .. } => {
            properties.len() == 0 && pattern_properties.len() == 0 && required.len() == 0
                && schema_is_trivially_universal(additional) && schema_is_trivially_universal(property_names)
                && dependent_required.len() == 0 && enumeration.is_none()
        },
        _ => false,
    }
}

/// An integer schema constrained by its bounds alone: no enumeration, and a
/// `multipleOf` (if any) of exactly 1.
pub open spec fn plain_range_integer(s: SchemaNode) -> bool {
    match s.kind {
        SchemaNodeKind::Integer { multiple_of, enumeration, .. } =>
            enumeration is None && (multiple_of matches Some(m) ==> m.divisor == Some(1i128)),
        _ => false,
    }
}

/// Whether `schema` is an integer schema constrained by its bounds alone.
pub fn integer_schema_is_plain_range(schema: &SchemaNode) -> (r: bool)
    ensures
        r == plain_range_integer(*schema),
{
    match &schema.kind {
        SchemaNodeKind::Integer { multiple_of, enumeration, .. } => {
            enumeration.is_none() && match multiple_of {
                None => true,
                Some(multiple) => multiple.integer_divisor() == Some(1i128),
            }
        },
        _ => false,
    }
}

/// Whether some conjunct of an `allOf` is directly an integer schema.
pub open spec fn has_direct_integer_conjunct(s: SchemaNode) -> bool {
    match s.kind {
        SchemaNodeKind::AllOf(children) => exists|i: int| 0 <= i < children@.len()
            && (#[trigger] children@[i]).kind is Integer,
        _ => false,
    }
}

/// Whether `schema` is an `allOf` with an integer schema among its conjuncts.
pub fn allof_has_direct_integer_conjunct(schema: &SchemaNode) -> (r: bool)
    ensures
        r == has_direct_integer_conjunct(*schema),
{
    match &schema.kind {
        SchemaNodeKind::AllOf(children) => {
            let mut i: usize = 0;
            while i < children.len()
                invariant
                    i <= children@.len(),
                    schema.kind == SchemaNodeKind::AllOf(*children),
                    forall|k: int| 0 <= k < i ==> !((#[trigger] children@[k]).kind is Integer),
                decreases children@.len() - i,
            {
                match &children[i].kind {
                    SchemaNodeKind::Integer { .. } => {
                        assert((schema.kind->AllOf_0@[i as int]).kind is Integer);
                        return true;
                    },
                    _ => {},
                }
                i = i + 1;
            }
            false
        },
        _ => false,
    }
}

/// Whether `s` has a `not` anywhere among its applicators (through
/// `allOf`/`anyOf`/`oneOf` branches and `if`/`then`/`else`).
pub open spec fn contains_not(s: SchemaNode) -> bool
    decreases s,
{
    match s.kind {
        SchemaNodeKind::Not(_) => true,
        SchemaNodeKind::AllOf(children) => exists|i: int| 0 <= i < children@.len() && contains_not(#[trigger] children@[i]),
        SchemaNodeKind::AnyOf(children) => exists|i: int| 0 <= i < children@.len() && contains_not(#[trigger] children@[i]),
        SchemaNodeKind::OneOf(children) => exists|i: int| 0 <= i < children@.len() && contains_not(#[trigger] children@[i]),
        SchemaNodeKind::IfThenElse { if_schema, then_schema, else_schema } =>
            contains_not(*if_schema) || (then_schema matches Some(t) && contains_not(*t))
                || (else_schema matches Some(e) && contains_not(*e)),
        _ => false,
    }
}

/// Whether some branch among `children` has a `not` (see `contains_not`).
fn any_child_contains_not(schema: &SchemaNode, children: &Vec<SchemaNode>) -> (r: bool)
    requires
        schema.kind == SchemaNodeKind::AllOf(*children) || schema.kind == SchemaNodeKind::AnyOf(*children)
            || schema.kind == SchemaNodeKind::OneOf(*children),
    ensures
        r == exists|i: int| 0 <= i < children@.len() && contains_not(#[trigger] children@[i]),
    decreases *schema, 0nat,
{
    let mut i: usize = 0;
    while i < children.len()
        invariant
            i <= children@.len(),
            schema.kind == SchemaNodeKind::AllOf(*children) || schema.kind == SchemaNodeKind::AnyOf(*children)
                || schema.kind == SchemaNodeKind::OneOf(*children),
            forall|k: int| 0 <= k < i ==> !contains_not(#[trigger] children@[k]),
        decreases children@.len() - i,
    {
        proof {
            assert(decreases_to!(*schema => schema.kind));
            if schema.kind == SchemaNodeKind::AllOf(*children) {
                assert(decreases_to!(schema.kind => schema.kind->AllOf_0));
            } else if schema.kind == SchemaNodeKind::AnyOf(*children) {
                assert(decreases_to!(schema.kind => schema.kind->AnyOf_0));
            } else {
                assert(decreases_to!(schema.kind => schema.kind->OneOf_0));
            }
            assert(decreases_to!(*children => children[i as int]));
        }
        if schema_contains_explicit_not(&children[i]) {
            return true;
        }
        i = i + 1;
    }
    false
}

/// Whether `schema` has a `not` anywhere among its applicators (see
/// `contains_not`).
pub fn schema_contains_explicit_not(schema: &SchemaNode) -> (r: bool)
    ensures
        r == contains_not(*schema),
    decreases *schema, 1nat,
{
    match &schema.kind {
        SchemaNodeKind::Not(_) => true,
        SchemaNodeKind::AllOf(children) => any_child_contains_not(schema, children),
        SchemaNodeKind::AnyOf(children) => any_child_contains_not(schema, children),
        SchemaNodeKind::OneOf(children) => any_child_contains_not(schema, children),
        SchemaNodeKind::IfThenElse { if_schema, then_schema, else_schema } => {
            schema_contains_explicit_not(if_schema)
                || match then_schema {
                    Some(t) => schema_contains_explicit_not(t),
                    None => false,
                }
                || match else_schema {
                    Some(e) => schema_contains_explicit_not(e),
                    None => false,
                }
        },
        _ => false,
    }
}

/// The branch a conditional with a constant guard always takes: a schema,
/// or an absent branch (which accepts everything).
pub enum LiveConditionalBranch<'a> {
    Universal,
    Schema(&'a SchemaNode),
}

/// What a conditional with guard `if_schema` and optional branches accepts.
pub open spec fn conditional_accepts(
    if_schema: SchemaNode,
    then_branch: Option<SchemaNode>,
    else_branch: Option<SchemaNode>,
    v: JsonValue,
    rx: spec_fn(Seq<char>, Seq<char>) -> bool,
) -> bool {
    if accepts(if_schema, v, rx) {
        match then_branch {
            Some(t) => accepts(t, v, rx),
            None => true,
        }
    } else {
        match else_branch {
            Some(e) => accepts(e, v, rx),
            None => true,
        }
    }
}

/// What a live branch accepts.
pub open spec fn live_accepts(live: LiveConditionalBranch, v: JsonValue, rx: spec_fn(Seq<char>, Seq<char>) -> bool) -> bool {
    match live {
        LiveConditionalBranch::Universal => true,
        LiveConditionalBranch::Schema(s) => accepts(*s, v, rx),
    }
}

/// The live branch of an optional branch.
pub open spec fn live_of(branch: Option<&SchemaNode>) -> LiveConditionalBranch {
    match branch {
        Some(s) => LiveConditionalBranch::Schema(s),
        None => LiveConditionalBranch::Universal,
    }
}

/// The view of an optional reference.
pub open spec fn opt_node(branch: Option<&SchemaNode>) -> Option<SchemaNode> {
    match branch {
        Some(s) => Some(*s),
        None => None,
    }
}

/// The only live branch of a conditional whose guard is trivially universal
/// (`then`) or the `false` schema (`else`); `None` for any other guard.
/// The conditional then accepts exactly what that branch accepts.
pub fn constant_guard_conditional_branch<'a>(
    if_schema: &SchemaNode,
    then_branch: Option<&'a SchemaNode>,
    else_branch: Option<&'a SchemaNode>,
) -> (r: Option<LiveConditionalBranch<'a>>)
    ensures
        r == (if trivially_universal(*if_schema) {
            Some(live_of(then_branch))
        } else if if_schema.kind == SchemaNodeKind::BoolSchema(false) {
            Some(live_of(else_branch))
        } else {
            None
        }),
        r matches Some(live) ==> forall|v: JsonValue, rx: spec_fn(Seq<char>, Seq<char>) -> bool|
            #[trigger] conditional_accepts(*if_schema, opt_node(then_branch), opt_node(else_branch), v, rx)
                == live_accepts(live, v, rx),
{
    let selected = if schema_is_trivially_universal(if_schema) {
        proof {
            assert forall|v: JsonValue, rx: spec_fn(Seq<char>, Seq<char>) -> bool| #[trigger] accepts(*if_schema, v, rx) by {
                crate::types::lemma_trivially_universal_accepts(*if_schema, v, rx);
            }
        }
        then_branch
    } else {
        match &if_schema.kind {
            SchemaNodeKind::BoolSchema(false) => else_branch,
            _ => return None,
        }
    };
    Some(match selected {
        Some(branch) => LiveConditionalBranch::Schema(branch),
        None => LiveConditionalBranch::Universal,
    })
}

} // verus!
