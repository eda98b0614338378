//! Membership-check polarity: where a concrete evaluator run on a schema may
//! wrongly reject a value (under-accept) or wrongly accept one
//! (over-accept). An evaluator fails closed on regular expressions its engine
//! does not support; negation and counting turn that into over-acceptance.

use vstd::prelude::*;
use crate::schema::{SchemaNode, SchemaNodeKind, PatternSupport};

verus! {

/// The ways an evaluator's answer on a schema may deviate from the truth.
#[derive(Clone, Copy, Debug, PartialEq, Eq, Structural)]
pub struct AcceptanceDeviation {
    pub may_under_accept: bool,
    pub may_over_accept: bool,
}

/// The deviation with the given flags.
pub open spec fn deviation(under: bool, over: bool) -> AcceptanceDeviation {
    AcceptanceDeviation { may_under_accept: under, may_over_accept: over }
}

impl AcceptanceDeviation {
    /// Both kinds of deviation of either input.
    pub fn combine(self, other: Self) -> (r: Self)
        ensures
            r == deviation(self.may_under_accept || other.may_under_accept, self.may_over_accept || other.may_over_accept),
    {
        AcceptanceDeviation {
            may_under_accept: self.may_under_accept || other.may_under_accept,
            may_over_accept: self.may_over_accept || other.may_over_accept,
        }
    }

    /// The deviation seen through a negation: under- and over-acceptance swap.
    pub fn inverted(self) -> (r: Self)
        ensures
            r == deviation(self.may_over_accept, self.may_under_accept),
    {
        AcceptanceDeviation { may_under_accept: self.may_over_accept, may_over_accept: self.may_under_accept }
    }

    /// Whether the evaluator's answer is exact.
    pub fn is_exact(self) -> (r: bool)
        ensures
            r == (!self.may_under_accept && !self.may_over_accept),
    {
        !self.may_under_accept && !self.may_over_accept
    }
}

/// Law: combining is commutative, associative and idempotent with the exact
/// deviation as identity; inverting is an involution that distributes over
/// combining and keeps exactness.
pub proof fn lemma_deviation_algebra(a: AcceptanceDeviation, b: AcceptanceDeviation, c: AcceptanceDeviation)
    ensures
        deviation(a.may_under_accept || b.may_under_accept, a.may_over_accept || b.may_over_accept)
            == deviation(b.may_under_accept || a.may_under_accept, b.may_over_accept || a.may_over_accept),
        deviation((a.may_under_accept || b.may_under_accept) || c.may_under_accept,
            (a.may_over_accept || b.may_over_accept) || c.may_over_accept)
            == deviation(a.may_under_accept || (b.may_under_accept || c.may_under_accept),
            a.may_over_accept || (b.may_over_accept || c.may_over_accept)),
        deviation(a.may_under_accept || a.may_under_accept, a.may_over_accept || a.may_over_accept) == a,
        deviation(a.may_under_accept || false, a.may_over_accept || false) == a,
        deviation(deviation(a.may_over_accept, a.may_under_accept).may_over_accept,
            deviation(a.may_over_accept, a.may_under_accept).may_under_accept) == a,
        deviation(a.may_over_accept || b.may_over_accept, a.may_under_accept || b.may_under_accept)
            == deviation(deviation(a.may_over_accept, a.may_under_accept).may_under_accept
                || deviation(b.may_over_accept, b.may_under_accept).may_under_accept,
                deviation(a.may_over_accept, a.may_under_accept).may_over_accept
                || deviation(b.may_over_accept, b.may_under_accept).may_over_accept),
        (!a.may_under_accept && !a.may_over_accept) == (!a.may_over_accept && !a.may_under_accept),
{
}

/// The deviation of a schema's evaluator answer:
/// - a string schema with an unsupported `pattern` may under-accept;
/// - object and array schemas inherit their subschemas' deviations; an
///   unsupported `patternProperties` key makes both possible; `contains`
///   passes its deviation on through `minContains > 0`, and inverted through
///   a `maxContains`;
/// - `allOf`/`anyOf` combine their branches; `oneOf` is exact only when
///   every branch is, and may deviate both ways otherwise;
/// - `not` inverts; `if` adds both ways unless the condition is exact.
pub open spec fn acceptance_deviation(s: SchemaNode) -> AcceptanceDeviation
    decreases s,
{
    match s.kind {
        SchemaNodeKind::String { pattern, .. } => match pattern {
            Some(p) => if p.support == PatternSupport::Unsupported { deviation(true, false) } else { deviation(false, false) },
            None => deviation(false, false),
        },
        SchemaNodeKind::Object { properties, pattern_properties, additional, property_names, .. } => {
            let under = (exists|i: int| 0 <= i < properties@.len() && acceptance_deviation(#[trigger] properties@[i].1).may_under_accept)
                || (exists|i: int| 0 <= i < pattern_properties@.len() && acceptance_deviation(#[trigger] pattern_properties@[i].schema).may_under_accept)
                || acceptance_deviation(*additional).may_under_accept
                || acceptance_deviation(*property_names).may_under_accept;
            let over = (exists|i: int| 0 <= i < properties@.len() && acceptance_deviation(#[trigger] properties@[i].1).may_over_accept)
                || (exists|i: int| 0 <= i < pattern_properties@.len() && acceptance_deviation(#[trigger] pattern_properties@[i].schema).may_over_accept)
                || acceptance_deviation(*additional).may_over_accept
                || acceptance_deviation(*property_names).may_over_accept;
            if exists|i: int| 0 <= i < pattern_properties@.len()
                && (#[trigger] pattern_properties@[i]).pattern.support == PatternSupport::Unsupported {
                deviation(true, true)
            } else {
                deviation(under, over)
            }
        },
        SchemaNodeKind::Array { prefix_items, items, contains, .. } => {
            let item_under = (exists|i: int| 0 <= i < prefix_items@.len() && acceptance_deviation(#[trigger] prefix_items@[i]).may_under_accept)
                || acceptance_deviation(*items).may_under_accept;
            let item_over = (exists|i: int| 0 <= i < prefix_items@.len() && acceptance_deviation(#[trigger] prefix_items@[i]).may_over_accept)
                || acceptance_deviation(*items).may_over_accept;
            match contains {
                None => deviation(item_under, item_over),
                Some(c) => {
                    let d = acceptance_deviation(*c.schema);
                    let bounded_below = c.count.min > 0;
                    let bounded_above = c.count.max is Some;
                    deviation(
                        item_under || (bounded_below && d.may_under_accept) || (bounded_above && d.may_over_accept),
                        item_over || (bounded_below && d.may_over_accept) || (bounded_above && d.may_under_accept),
                    )
                },
            }
        },
        SchemaNodeKind::AllOf(children) => deviation(
            exists|i: int| 0 <= i < children@.len() && acceptance_deviation(#[trigger] children@[i]).may_under_accept,
            exists|i: int| 0 <= i < children@.len() && acceptance_deviation(#[trigger] children@[i]).may_over_accept,
        ),
        SchemaNodeKind::AnyOf(children) => deviation(
            exists|i: int| 0 <= i < children@.len() && acceptance_deviation(#[trigger] children@[i]).may_under_accept,
            exists|i: int| 0 <= i < children@.len() && acceptance_deviation(#[trigger] children@[i]).may_over_accept,
        ),
        SchemaNodeKind::OneOf(children) => {
            let inexact = exists|i: int| 0 <= i < children@.len()
                && (acceptance_deviation(#[trigger] children@[i]).may_under_accept || acceptance_deviation(children@[i]).may_over_accept);
            deviation(inexact, inexact)
        },
        SchemaNodeKind::Not(child) => {
            let d = acceptance_deviation(*child);
            deviation(d.may_over_accept, d.may_under_accept)
        },
        SchemaNodeKind::IfThenElse { if_schema, then_schema, else_schema } => {
            let c = acceptance_deviation(*if_schema);
            let inexact_condition = c.may_under_accept || c.may_over_accept;
            let under = match then_schema { Some(t) => acceptance_deviation(*t).may_under_accept, None => false }
                || match else_schema { Some(e) => acceptance_deviation(*e).may_under_accept, None => false };
            let over = match then_schema { Some(t) => acceptance_deviation(*t).may_over_accept, None => false }
                || match else_schema { Some(e) => acceptance_deviation(*e).may_over_accept, None => false };
            deviation(under || inexact_condition, over || inexact_condition)
        },
        _ => deviation(false, false),
    }
}

/// The combined deviation of the schemas `children`, which are the
/// branches of the applicator `schema` or the `prefixItems` of the array
/// schema `schema`.
fn branches_deviation(schema: &SchemaNode, children: &Vec<SchemaNode>) -> (d: AcceptanceDeviation)
    requires
        schema.kind == SchemaNodeKind::AllOf(*children) || schema.kind == SchemaNodeKind::AnyOf(*children)
            || schema.kind == SchemaNodeKind::OneOf(*children)
            || (schema.kind is Array && schema.kind->prefix_items == *children),
    ensures
        d.may_under_accept == exists|i: int| 0 <= i < children@.len() && acceptance_deviation(#[trigger] children@[i]).may_under_accept,
        d.may_over_accept == exists|i: int| 0 <= i < children@.len() && acceptance_deviation(#[trigger] children@[i]).may_over_accept,
    decreases *schema, 0nat,
{
    let mut d = AcceptanceDeviation { may_under_accept: false, may_over_accept: false };
    let mut i: usize = 0;
    while i < children.len()
        invariant
            i <= children@.len(),
            schema.kind == SchemaNodeKind::AllOf(*children) || schema.kind == SchemaNodeKind::AnyOf(*children)
                || schema.kind == SchemaNodeKind::OneOf(*children)
                || (schema.kind is Array && schema.kind->prefix_items == *children),
            d.may_under_accept == exists|k: int| 0 <= k < i && acceptance_deviation(#[trigger] children@[k]).may_under_accept,
            d.may_over_accept == exists|k: int| 0 <= k < i && acceptance_deviation(#[trigger] children@[k]).may_over_accept,
        decreases children@.len() - i,
    {
        proof {
            assert(decreases_to!(*schema => schema.kind));
            if schema.kind is AllOf {
                assert(decreases_to!(schema.kind => schema.kind->AllOf_0));
            } else if schema.kind is AnyOf {
                assert(decreases_to!(schema.kind => schema.kind->AnyOf_0));
            } else if schema.kind is OneOf {
                assert(decreases_to!(schema.kind => schema.kind->OneOf_0));
            } else {
                assert(decreases_to!(schema.kind => schema.kind->prefix_items));
            }
            assert(decreases_to!(*children => children[i as int]));
        }
        let child = schema_acceptance_deviation(&children[i]);
        d = d.combine(child);
        i = i + 1;
    }
    d
}

/// The deviation of an evaluator's answer on `schema` (see
/// `acceptance_deviation`).
pub fn schema_acceptance_deviation(schema: &SchemaNode) -> (d: AcceptanceDeviation)
    ensures
        d == acceptance_deviation(*schema),
    decreases *schema, 1nat,
{
    let exact = AcceptanceDeviation { may_under_accept: false, may_over_accept: false };
    let both = AcceptanceDeviation { may_under_accept: true, may_over_accept: true };
    match &schema.kind {
        SchemaNodeKind::String { pattern, .. } => match pattern {
            Some(p) => if p.support == PatternSupport::Unsupported {
                AcceptanceDeviation { may_under_accept: true, may_over_accept: false }
            } else {
                exact
            },
            None => exact,
        },
        SchemaNodeKind::Object { properties, pattern_properties, additional, property_names, .. } => {
            let mut child = exact;
            let mut i: usize = 0;
            while i < properties.len()
                invariant
                    i <= properties@.len(),
                    schema.kind is Object && schema.kind->properties == *properties,
                    child.may_under_accept == exists|k: int| 0 <= k < i && acceptance_deviation(#[trigger] properties@[k].1).may_under_accept,
                    child.may_over_accept == exists|k: int| 0 <= k < i && acceptance_deviation(#[trigger] properties@[k].1).may_over_accept,
                decreases properties@.len() - i,
            {
                proof {
                    assert(decreases_to!(*schema => schema.kind));
                    assert(decreases_to!(schema.kind => schema.kind->properties));
                    assert(decreases_to!(*properties => properties[i as int]));
                    assert(decreases_to!(properties[i as int] => properties[i as int].1));
                }
                let d = schema_acceptance_deviation(&properties[i].1);
                child = child.combine(d);
                i = i + 1;
            }
            let mut j: usize = 0;
            let mut unsupported = false;
            let mut patterns = exact;
            while j < pattern_properties.len()
                invariant
                    j <= pattern_properties@.len(),
                    schema.kind is Object && schema.kind->pattern_properties == *pattern_properties,
                    patterns.may_under_accept == exists|k: int| 0 <= k < j
                        && acceptance_deviation(#[trigger] pattern_properties@[k].schema).may_under_accept,
                    patterns.may_over_accept == exists|k: int| 0 <= k < j
                        && acceptance_deviation(#[trigger] pattern_properties@[k].schema).may_over_accept,
                    unsupported == exists|k: int| 0 <= k < j
                        && (#[trigger] pattern_properties@[k]).pattern.support == PatternSupport::Unsupported,
                decreases pattern_properties@.len() - j,
            {
                proof {
                    assert(decreases_to!(*schema => schema.kind));
                    assert(decreases_to!(schema.kind => schema.kind->pattern_properties));
                    assert(decreases_to!(*pattern_properties => pattern_properties[j as int]));
                    assert(decreases_to!(pattern_properties[j as int] => pattern_properties[j as int].schema));
                }
                let d = schema_acceptance_deviation(&pattern_properties[j].schema);
                patterns = patterns.combine(d);
                if pattern_properties[j].pattern.support == PatternSupport::Unsupported {
                    unsupported = true;
                }
                j = j + 1;
            }
            child = child.combine(patterns);
            child = child.combine(schema_acceptance_deviation(additional));
            child = child.combine(schema_acceptance_deviation(property_names));
            if unsupported {
                child.combine(both)
            } else {
                child
            }
        },
        SchemaNodeKind::Array { prefix_items, items, contains, .. } => {
            let prefix = branches_deviation(schema, prefix_items);
            let item_deviation = prefix.combine(schema_acceptance_deviation(items));
            match contains {
                None => item_deviation,
                Some(c) => {
                    let contains_deviation = schema_acceptance_deviation(&c.schema);
                    let mut effect = exact;
                    if c.count.min > 0 {
                        effect.may_under_accept = contains_deviation.may_under_accept;
                        effect.may_over_accept = contains_deviation.may_over_accept;
                    }
                    if c.count.max.is_some() {
                        effect.may_under_accept = effect.may_under_accept || contains_deviation.may_over_accept;
                        effect.may_over_accept = effect.may_over_accept || contains_deviation.may_under_accept;
                    }
                    item_deviation.combine(effect)
                },
            }
        },
        SchemaNodeKind::AllOf(children) => branches_deviation(schema, children),
        SchemaNodeKind::AnyOf(children) => branches_deviation(schema, children),
        SchemaNodeKind::OneOf(children) => {
            let child = branches_deviation(schema, children);
            if child.is_exact() {
                exact
            } else {
                both
            }
        },
        SchemaNodeKind::Not(child) => schema_acceptance_deviation(child).inverted(),
        SchemaNodeKind::IfThenElse { if_schema, then_schema, else_schema } => {
            let if_deviation = schema_acceptance_deviation(if_schema);
            let mut branch = exact;
            match then_schema {
                Some(t) => {
                    branch = branch.combine(schema_acceptance_deviation(t));
                },
                None => {},
            }
            match else_schema {
                Some(e) => {
                    branch = branch.combine(schema_acceptance_deviation(e));
                },
                None => {},
            }
            if if_deviation.is_exact() {
                branch
            } else {
                branch.combine(both)
            }
        },
        _ => exact,
    }
}

/// Whether an evaluator's rejection of a value by `schema` may be wrong.
pub fn schema_may_under_accept_values(schema: &SchemaNode) -> (r: bool)
    ensures
        r == acceptance_deviation(*schema).may_under_accept,
{
    schema_acceptance_deviation(schema).may_under_accept
}

} // verus!
