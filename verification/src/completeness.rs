//! Where the conservative tests must answer: the cases in which a subsumption,
//! guarantee, deviation or equivalence test is owed a definite answer, stated
//! against what the tests are for rather than against their definitions.

use vstd::prelude::*;
use crate::json::{JsonValue, json_wf, lemma_json_eq_reflexive};
use crate::schema::{SchemaNode, SchemaNodeKind, IntegerMultipleOf, NumberMultipleOf, IntegerBounds, NumberBound};
use crate::explainers::{multiple_of_subsumed, number_multiple_subsumed, values_included, enum_view};
use crate::scalar::{integer_subsumed, string_subsumed, StringConstraints};
use crate::properties::{guarantees_name, schema_guarantees_name, guaranteed_names, collected_names, collected_rules};
use crate::membership::acceptance_deviation;
use crate::equivalence::obviously_equivalent;
use crate::floats::float_is_nan;

verus! {

/// Law: an absent superset `multipleOf` demands nothing, and a present one
/// is never met by an absent subset `multipleOf`.
pub proof fn lemma_integer_multiple_absent(sub: Option<IntegerMultipleOf>, sup: IntegerMultipleOf)
    ensures
        multiple_of_subsumed(sub, None),
        !multiple_of_subsumed(None, Some(sup)),
{
}

/// Law: for positive integer divisors, `sub`'s `multipleOf` is subsumed by
/// `sup`'s exactly when every multiple of `sub`'s divisor is a multiple of
/// `sup`'s; in particular every positive divisor is subsumed by itself.
pub proof fn lemma_integer_multiple_exact(sub: IntegerMultipleOf, sup: IntegerMultipleOf)
    requires
        sub.divisor matches Some(x) && x > 0,
        sup.divisor matches Some(y) && y > 0,
    ensures
        multiple_of_subsumed(Some(sub), Some(sup)) <==> forall|n: int|
            n % (sub.divisor->0 as int) == 0 ==> #[trigger] (n % (sup.divisor->0 as int)) == 0,
        multiple_of_subsumed(Some(sub), Some(sub)),
{
    let x = sub.divisor->0 as int;
    let y = sup.divisor->0 as int;
    if multiple_of_subsumed(Some(sub), Some(sup)) {
        assert forall|n: int| n % x == 0 implies #[trigger] (n % y) == 0 by {
            crate::explainers::lemma_divides_transitive(n, x, y);
        }
    }
    if forall|n: int| n % x == 0 ==> #[trigger] (n % y) == 0 {
        vstd::arithmetic::div_mod::lemma_mod_self_0(x);
        assert(x % x == 0);
        assert(x % y == 0);
    }
    vstd::arithmetic::div_mod::lemma_mod_self_0(x);
}

/// Law: a `multipleOf` without a positive integer divisor, on either side,
/// proves nothing.
pub proof fn lemma_integer_multiple_needs_divisors(sub: IntegerMultipleOf, sup: IntegerMultipleOf)
    requires
        !(sub.divisor matches Some(x) && x > 0) || !(sup.divisor matches Some(y) && y > 0),
    ensures
        !multiple_of_subsumed(Some(sub), Some(sup)),
{
}

/// Law: the number `multipleOf` test on integer divisors: nothing demanded
/// without a superset `multipleOf`; never met without a subset one; for
/// positive divisors exactly when every multiple of `sub`'s divisor is a
/// multiple of `sup`'s, so every positive divisor is subsumed by itself.
pub proof fn lemma_number_multiple_exact(sub: NumberMultipleOf, sup: NumberMultipleOf)
    ensures
        number_multiple_subsumed(Some(sub), None),
        number_multiple_subsumed(None, None),
        !number_multiple_subsumed(None, Some(sup)),
        (sub.divisor matches Some(x) && x > 0) && (sup.divisor matches Some(y) && y > 0) ==>
            (number_multiple_subsumed(Some(sub), Some(sup)) <==> forall|n: int|
                n % (sub.divisor->0 as int) == 0 ==> #[trigger] (n % (sup.divisor->0 as int)) == 0),
        (sub.divisor matches Some(x) && x > 0) ==> number_multiple_subsumed(Some(sub), Some(sub)),
        !(sub.divisor matches Some(x) && x > 0) || !(sup.divisor matches Some(y) && y > 0)
            ==> !number_multiple_subsumed(Some(sub), Some(sup)),
{
    if (sub.divisor matches Some(x) && x > 0) && (sup.divisor matches Some(y) && y > 0) {
        let x = sub.divisor->0 as int;
        let y = sup.divisor->0 as int;
        if number_multiple_subsumed(Some(sub), Some(sup)) {
            assert forall|n: int| n % x == 0 implies #[trigger] (n % y) == 0 by {
                crate::explainers::lemma_divides_transitive(n, x, y);
            }
        }
        if forall|n: int| n % x == 0 ==> #[trigger] (n % y) == 0 {
            vstd::arithmetic::div_mod::lemma_mod_self_0(x);
            assert(x % x == 0);
            assert(x % y == 0);
        }
    }
    if sub.divisor matches Some(x) && x > 0 {
        vstd::arithmetic::div_mod::lemma_mod_self_0(sub.divisor->0 as int);
    }
}

/// Every well-formed enumeration is included in itself.
proof fn lemma_values_included_reflexive(values: Seq<JsonValue>)
    requires
        forall|i: int| 0 <= i < values.len() ==> json_wf(#[trigger] values[i]),
    ensures
        values_included(values, values),
{
    assert forall|i: int| 0 <= i < values.len() implies #[trigger] crate::explainers::enum_member(values, values[i]) by {
        lemma_json_eq_reflexive(values[i]);
    }
}

/// Law: integer constraints are subsumed by themselves, whenever their
/// `multipleOf` (if any) has a positive integer divisor and their
/// enumeration (if any) holds well-formed values.
pub proof fn lemma_integer_subsumed_reflexive(bounds: IntegerBounds, multiple_of: Option<IntegerMultipleOf>,
    enumeration: Option<Seq<JsonValue>>)
    requires
        multiple_of matches Some(m) ==> (m.divisor matches Some(d) && d > 0),
        enumeration matches Some(values) ==> forall|i: int| 0 <= i < values.len() ==> json_wf(#[trigger] values[i]),
    ensures
        integer_subsumed(bounds, multiple_of, enumeration, bounds, multiple_of, enumeration),
{
    match multiple_of {
        Some(m) => { lemma_integer_multiple_exact(m, m); },
        None => {},
    }
    match enumeration {
        Some(values) => { lemma_values_included_reflexive(values); },
        None => {},
    }
}

/// Law: string constraints are subsumed by themselves, whenever their
/// enumeration (if any) holds well-formed values.
pub proof fn lemma_string_subsumed_reflexive(c: StringConstraints)
    requires
        enum_view(c.enumeration) matches Some(values) ==> forall|i: int| 0 <= i < values.len() ==> json_wf(#[trigger] values[i]),
    ensures
        string_subsumed(c, c),
{
    match enum_view(c.enumeration) {
        Some(values) => { lemma_values_included_reflexive(values); },
        None => {},
    }
}

/// Law: a union (`anyOf` or `oneOf`) with at least one branch guarantees a
/// member name every branch guarantees.
pub proof fn lemma_union_guarantees_common_name(s: SchemaNode, name: Seq<char>)
    requires
        s.kind matches SchemaNodeKind::AnyOf(children) || s.kind matches SchemaNodeKind::OneOf(children),
        match s.kind {
            SchemaNodeKind::AnyOf(children) => children@.len() > 0
                && forall|i: int| 0 <= i < children@.len() ==> guarantees_name(#[trigger] children@[i], name),
            SchemaNodeKind::OneOf(children) => children@.len() > 0
                && forall|i: int| 0 <= i < children@.len() ==> guarantees_name(#[trigger] children@[i], name),
            _ => false,
        },
    ensures
        guarantees_name(s, name),
        schema_guarantees_name(s, name),
{
}

/// Law: `anyOf` and `oneOf` over the same branches guarantee the same
/// member names (each accepted object is accepted by some branch either way).
pub proof fn lemma_any_of_one_of_guarantee_alike(a: SchemaNode, b: SchemaNode, name: Seq<char>)
    requires
        a.kind matches SchemaNodeKind::AnyOf(x) && b.kind matches SchemaNodeKind::OneOf(y) && x@ == y@,
    ensures
        schema_guarantees_name(a, name) == schema_guarantees_name(b, name),
{
    assert(collected_names(a) =~= collected_names(b));
    assert(collected_rules(a) =~= collected_rules(b));
    assert(guaranteed_names(a) == guaranteed_names(b));
    let children = a.kind->AnyOf_0;
    let others = b.kind->OneOf_0;
    assert(forall|i: int| 0 <= i < children@.len() ==> children@[i] == others@[i]);
}

/// Law: an `allOf` guarantees whatever one conjunct guarantees, and an `if`
/// with both branches whatever both guarantee.
pub proof fn lemma_conjunct_guarantee_kept(s: SchemaNode, i: int, name: Seq<char>)
    requires
        s.kind matches SchemaNodeKind::AllOf(children) && 0 <= i < children@.len() && guarantees_name(children@[i], name),
    ensures
        guarantees_name(s, name),
        schema_guarantees_name(s, name),
{
    let children = s.kind->AllOf_0;
    assert(guarantees_name(children@[i], name));
}

/// Law: the ways an evaluator may be wrong on an `allOf` or an `anyOf`
/// include the ways it may be wrong on each branch.
pub proof fn lemma_deviation_of_branch_kept(s: SchemaNode, children: Vec<SchemaNode>, i: int)
    requires
        s.kind == SchemaNodeKind::AllOf(children) || s.kind == SchemaNodeKind::AnyOf(children),
        0 <= i < children@.len(),
    ensures
        acceptance_deviation(children@[i]).may_under_accept ==> acceptance_deviation(s).may_under_accept,
        acceptance_deviation(children@[i]).may_over_accept ==> acceptance_deviation(s).may_over_accept,
{
    let d = acceptance_deviation(children@[i]);
    if d.may_under_accept {
        assert(exists|k: int| 0 <= k < children@.len() && acceptance_deviation(#[trigger] children@[k]).may_under_accept);
    }
    if d.may_over_accept {
        assert(exists|k: int| 0 <= k < children@.len() && acceptance_deviation(#[trigger] children@[k]).may_over_accept);
    }
    match s.kind {
        SchemaNodeKind::AllOf(cs) => { assert(cs == children); },
        SchemaNodeKind::AnyOf(cs) => { assert(cs == children); },
        _ => {},
    }
}

/// Law: a `oneOf` branch on which an evaluator may be wrong, either way,
/// makes the evaluator possibly wrong both ways on the whole `oneOf`.
pub proof fn lemma_deviation_of_one_of_branch(s: SchemaNode, children: Vec<SchemaNode>, i: int)
    requires
        s.kind == SchemaNodeKind::OneOf(children),
        0 <= i < children@.len(),
        acceptance_deviation(children@[i]).may_under_accept || acceptance_deviation(children@[i]).may_over_accept,
    ensures
        acceptance_deviation(s).may_under_accept,
        acceptance_deviation(s).may_over_accept,
{
    let d = acceptance_deviation(children@[i]);
    assert(d.may_under_accept || d.may_over_accept);
    assert(exists|k: int| 0 <= k < children@.len()
        && (acceptance_deviation(#[trigger] children@[k]).may_under_accept || acceptance_deviation(children@[k]).may_over_accept));
    match s.kind {
        SchemaNodeKind::OneOf(cs) => { assert(cs == children); },
        _ => {},
    }
}

/// Law: `not` swaps the two ways an evaluator may be wrong.
pub proof fn lemma_deviation_of_negation(s: SchemaNode, child: SchemaNode)
    requires
        s.kind == SchemaNodeKind::Not(Box::new(child)),
    ensures
        acceptance_deviation(s).may_under_accept == acceptance_deviation(child).may_over_accept,
        acceptance_deviation(s).may_over_accept == acceptance_deviation(child).may_under_accept,
{
}

/// Whether a number bound has no NaN value.
pub open spec fn bound_is_number(b: NumberBound) -> bool {
    match b {
        NumberBound::Unbounded => true,
        NumberBound::Inclusive(x) => !float_is_nan(x),
        NumberBound::Exclusive(x) => !float_is_nan(x),
    }
}

/// Whether a schema can be compared with itself by the equivalence test:
/// `{}`, `true`/`false`, a well-formed `const` or `enum`, and unenumerated
/// schemas of one primitive type whose doubles are not NaN.
pub open spec fn comparable_with_itself(s: SchemaNode) -> bool {
    match s.kind {
        SchemaNodeKind::Any => true,
        SchemaNodeKind::BoolSchema(_) => true,
        SchemaNodeKind::Const(v) => json_wf(v),
        SchemaNodeKind::Enum(values) => forall|i: int| 0 <= i < values@.len() ==> json_wf(#[trigger] values@[i]),
        SchemaNodeKind::Null { enumeration } => enumeration is None,
        SchemaNodeKind::Boolean { enumeration } => enumeration is None,
        SchemaNodeKind::String { enumeration, .. } => enumeration is None,
        SchemaNodeKind::Number { bounds, multiple_of, enumeration } => enumeration is None
            && bound_is_number(bounds.lower) && bound_is_number(bounds.upper)
            && (multiple_of matches Some(m) ==> !float_is_nan(m.value)),
        SchemaNodeKind::Integer { multiple_of, enumeration, .. } => enumeration is None
            && (multiple_of matches Some(m) ==> !float_is_nan(m.value)),
        _ => false,
    }
}

/// Law: the equivalence test finds every schema it can compare equivalent
/// to itself.
pub proof fn lemma_obviously_equivalent_reflexive(s: SchemaNode)
    requires
        comparable_with_itself(s),
    ensures
        obviously_equivalent(s, s),
{
    match s.kind {
        SchemaNodeKind::Const(v) => { lemma_json_eq_reflexive(v); },
        SchemaNodeKind::Enum(values) => { lemma_values_included_reflexive(values@); },
        _ => {},
    }
}

} // verus!
