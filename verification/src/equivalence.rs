//! Schemas equivalent by their syntax alone: the same literal, or the same
//! unenumerated primitive keywords (doubles compared as doubles), and what
//! follows from it: they accept the same values.

use vstd::prelude::*;
use crate::json::{JsonValue, JsonNumber, json_eq, json_values_equal, str_eq, float_rational, number_rational,
    lemma_json_eq_symmetric, lemma_json_eq_transitive};
use crate::schema::{SchemaNode, SchemaNodeKind, NumberBound, NumberBounds, NumberMultipleOf, IntegerMultipleOf,
    PatternConstraint};
use crate::semantics::{accepts, lower_bound_ok, upper_bound_ok, is_multiple_of_float};
use crate::floats::{float_order, scaled_value, compare_float_bits, lemma_float_vs_rational, lemma_float_rational_scaled,
    lemma_scaled_value_determines_bits};
use crate::explainers::{values_included, enum_member, check_enum_inclusion};
use crate::numeric::lemma_number_denominator;

verus! {

/// Whether two doubles compare equal (`-0.0` equals `0.0`; a NaN equals
/// nothing).
pub open spec fn floats_equal(a: u64, b: u64) -> bool {
    float_order(a, b) == Some(0int)
}

/// Whether two number bounds are the same kind of bound at equal values.
pub open spec fn number_bounds_equal(a: NumberBound, b: NumberBound) -> bool {
    match (a, b) {
        (NumberBound::Unbounded, NumberBound::Unbounded) => true,
        (NumberBound::Inclusive(x), NumberBound::Inclusive(y)) => floats_equal(x, y),
        (NumberBound::Exclusive(x), NumberBound::Exclusive(y)) => floats_equal(x, y),
        _ => false,
    }
}

/// Whether two optional number `multipleOf`s are equal (values as doubles).
pub open spec fn number_multiples_equal(a: Option<NumberMultipleOf>, b: Option<NumberMultipleOf>) -> bool {
    match (a, b) {
        (None, None) => true,
        (Some(x), Some(y)) => floats_equal(x.value, y.value) && x.divisor == y.divisor,
        _ => false,
    }
}

/// Whether two optional integer `multipleOf`s are equal (values as doubles).
pub open spec fn integer_multiples_equal(a: Option<IntegerMultipleOf>, b: Option<IntegerMultipleOf>) -> bool {
    match (a, b) {
        (None, None) => true,
        (Some(x), Some(y)) => floats_equal(x.value, y.value) && x.divisor == y.divisor,
        _ => false,
    }
}

/// Whether two optional patterns are equal.
pub open spec fn patterns_equal(a: Option<PatternConstraint>, b: Option<PatternConstraint>) -> bool {
    match (a, b) {
        (None, None) => true,
        (Some(p), Some(q)) => p.source@ == q.source@ && p.support == q.support,
        _ => false,
    }
}

/// Whether two optional `format`s are equal.
pub open spec fn formats_equal(a: Option<String>, b: Option<String>) -> bool {
    match (a, b) {
        (None, None) => true,
        (Some(x), Some(y)) => x@ == y@,
        _ => false,
    }
}

/// The test `schemas_obviously_equivalent` performs:
/// - equal `const`s, a `const` and a one-member `enum` holding it, or
///   `enum`s of one length each of whose members equals a member of the
///   other (both ways);
/// - equal boolean schemas, two empty schemas;
/// - two unenumerated schemas of one primitive type with equal keywords.
pub open spec fn obviously_equivalent(a: SchemaNode, b: SchemaNode) -> bool {
    match (a.kind, b.kind) {
        (SchemaNodeKind::Const(x), SchemaNodeKind::Const(y)) => json_eq(x, y),
        (SchemaNodeKind::Const(x), SchemaNodeKind::Enum(ys)) => ys@.len() == 1 && json_eq(x, ys@[0]),
        (SchemaNodeKind::Enum(ys), SchemaNodeKind::Const(x)) => ys@.len() == 1 && json_eq(x, ys@[0]),
        (SchemaNodeKind::Enum(xs), SchemaNodeKind::Enum(ys)) => xs@.len() == ys@.len() && values_included(xs@, ys@)
            && values_included(ys@, xs@),
        (SchemaNodeKind::BoolSchema(x), SchemaNodeKind::BoolSchema(y)) => x == y,
        (SchemaNodeKind::Any, SchemaNodeKind::Any) => true,
        (SchemaNodeKind::Null { enumeration: e1 }, SchemaNodeKind::Null { enumeration: e2 }) => e1 is None && e2 is None,
        (SchemaNodeKind::Boolean { enumeration: e1 }, SchemaNodeKind::Boolean { enumeration: e2 }) => e1 is None && e2 is None,
        (
            SchemaNodeKind::String { length: l1, pattern: p1, format: f1, enumeration: e1 },
            SchemaNodeKind::String { length: l2, pattern: p2, format: f2, enumeration: e2 },
        ) => e1 is None && e2 is None && l1 == l2 && patterns_equal(p1, p2) && formats_equal(f1, f2),
        (
            SchemaNodeKind::Number { bounds: b1, multiple_of: m1, enumeration: e1 },
            SchemaNodeKind::Number { bounds: b2, multiple_of: m2, enumeration: e2 },
        ) => e1 is None && e2 is None && number_bounds_equal(b1.lower, b2.lower) && number_bounds_equal(b1.upper, b2.upper)
            && number_multiples_equal(m1, m2),
        (
            SchemaNodeKind::Integer { bounds: b1, multiple_of: m1, enumeration: e1 },
            SchemaNodeKind::Integer { bounds: b2, multiple_of: m2, enumeration: e2 },
        ) => e1 is None && e2 is None && b1 == b2 && integer_multiples_equal(m1, m2),
        _ => false,
    }
}

/// Whether two doubles compare equal.
fn float_bits_equal(a: u64, b: u64) -> (r: bool)
    ensures
        r == floats_equal(a, b),
{
    match compare_float_bits(a, b) {
        Some(c) => c == 0,
        None => false,
    }
}

/// Whether two number bounds are the same kind of bound at equal values.
fn number_bound_equal(a: NumberBound, b: NumberBound) -> (r: bool)
    ensures
        r == number_bounds_equal(a, b),
{
    match (a, b) {
        (NumberBound::Unbounded, NumberBound::Unbounded) => true,
        (NumberBound::Inclusive(x), NumberBound::Inclusive(y)) => float_bits_equal(x, y),
        (NumberBound::Exclusive(x), NumberBound::Exclusive(y)) => float_bits_equal(x, y),
        _ => false,
    }
}

/// Whether two optional strings are equal.
fn optional_text_equal(a: &Option<String>, b: &Option<String>) -> (r: bool)
    ensures
        r == formats_equal(*a, *b),
{
    match (a, b) {
        (None, None) => true,
        (Some(x), Some(y)) => str_eq(x.as_str(), y.as_str()),
        _ => false,
    }
}

/// Whether two optional patterns are equal.
fn optional_pattern_equal(a: &Option<PatternConstraint>, b: &Option<PatternConstraint>) -> (r: bool)
    ensures
        r == patterns_equal(*a, *b),
{
    match (a, b) {
        (None, None) => true,
        (Some(p), Some(q)) => str_eq(p.source.as_str(), q.source.as_str()) && p.support == q.support,
        _ => false,
    }
}

/// Whether two schemas are equivalent by their syntax alone (see
/// `obviously_equivalent`). Then they accept the same values.
pub fn schemas_obviously_equivalent(a: &SchemaNode, b: &SchemaNode) -> (r: bool)
    ensures
        r == obviously_equivalent(*a, *b),
        r ==> forall|v: JsonValue, rx: spec_fn(Seq<char>, Seq<char>) -> bool|
            #[trigger] accepts(*a, v, rx) == accepts(*b, v, rx),
{
    let r = match (&a.kind, &b.kind) {
        (SchemaNodeKind::Const(x), SchemaNodeKind::Const(y)) => json_values_equal(x, y),
        (SchemaNodeKind::Const(x), SchemaNodeKind::Enum(ys)) => ys.len() == 1 && json_values_equal(x, &ys[0]),
        (SchemaNodeKind::Enum(ys), SchemaNodeKind::Const(x)) => ys.len() == 1 && json_values_equal(x, &ys[0]),
        (SchemaNodeKind::Enum(xs), SchemaNodeKind::Enum(ys)) => {
            xs.len() == ys.len() && check_enum_inclusion(Some(xs.as_slice()), Some(ys.as_slice()))
                && check_enum_inclusion(Some(ys.as_slice()), Some(xs.as_slice()))
        },
        (SchemaNodeKind::BoolSchema(x), SchemaNodeKind::BoolSchema(y)) => *x == *y,
        (SchemaNodeKind::Any, SchemaNodeKind::Any) => true,
        (SchemaNodeKind::Null { enumeration: e1 }, SchemaNodeKind::Null { enumeration: e2 }) => e1.is_none() && e2.is_none(),
        (SchemaNodeKind::Boolean { enumeration: e1 }, SchemaNodeKind::Boolean { enumeration: e2 }) => e1.is_none() && e2.is_none(),
        (
            SchemaNodeKind::String { length: l1, pattern: p1, format: f1, enumeration: e1 },
            SchemaNodeKind::String { length: l2, pattern: p2, format: f2, enumeration: e2 },
        ) => e1.is_none() && e2.is_none() && *l1 == *l2 && optional_pattern_equal(p1, p2) && optional_text_equal(f1, f2),
        (
            SchemaNodeKind::Number { bounds: b1, multiple_of: m1, enumeration: e1 },
            SchemaNodeKind::Number { bounds: b2, multiple_of: m2, enumeration: e2 },
        ) => {
            let multiples = match (m1, m2) {
                (None, None) => true,
                (Some(x), Some(y)) => float_bits_equal(x.value, y.value) && x.divisor == y.divisor,
                _ => false,
            };
            e1.is_none() && e2.is_none() && number_bound_equal(b1.lower, b2.lower) && number_bound_equal(b1.upper, b2.upper)
                && multiples
        },
        (
            SchemaNodeKind::Integer { bounds: b1, multiple_of: m1, enumeration: e1 },
            SchemaNodeKind::Integer { bounds: b2, multiple_of: m2, enumeration: e2 },
        ) => {
            let multiples = match (m1, m2) {
                (None, None) => true,
                (Some(x), Some(y)) => float_bits_equal(x.value, y.value) && x.divisor == y.divisor,
                _ => false,
            };
            e1.is_none() && e2.is_none() && *b1 == *b2 && multiples
        },
        _ => false,
    };
    proof {
        if r {
            assert forall|v: JsonValue, rx: spec_fn(Seq<char>, Seq<char>) -> bool|
                #[trigger] accepts(*a, v, rx) == accepts(*b, v, rx) by {
                lemma_obviously_equivalent_accepts(*a, *b, v, rx);
            }
        }
    }
    r
}

/// Two doubles that compare equal give the same bounds and the same
/// multiples.
proof fn lemma_equal_floats(a: u64, b: u64, n: JsonNumber)
    requires
        floats_equal(a, b),
    ensures
        rat_le_same(a, b, n),
        is_multiple_of_float(n, a) == is_multiple_of_float(n, b),
{
    lemma_number_denominator(n);
    let x = number_rational(n);
    lemma_float_vs_rational(a, x);
    lemma_float_vs_rational(b, x);
    if scaled_value(a) != 0 {
        lemma_scaled_value_determines_bits(a, b);
    } else {
        vstd::arithmetic::power2::lemma_pow2_pos(1074);
        lemma_float_rational_scaled(a);
        lemma_float_rational_scaled(b);
        assert(float_rational(a).0 == 0) by (nonlinear_arith)
            requires
                float_rational(a).0 * vstd::arithmetic::power2::pow2(1074) == 0 * float_rational(a).1,
                vstd::arithmetic::power2::pow2(1074) > 0;
        assert(float_rational(b).0 == 0) by (nonlinear_arith)
            requires
                float_rational(b).0 * vstd::arithmetic::power2::pow2(1074) == 0 * float_rational(b).1,
                vstd::arithmetic::power2::pow2(1074) > 0;
    }
}

/// Comparing a number with two doubles that compare equal gives the same
/// answers.
pub open spec fn rat_le_same(a: u64, b: u64, n: JsonNumber) -> bool {
    &&& lower_bound_ok(NumberBound::Inclusive(a), n) == lower_bound_ok(NumberBound::Inclusive(b), n)
    &&& lower_bound_ok(NumberBound::Exclusive(a), n) == lower_bound_ok(NumberBound::Exclusive(b), n)
    &&& upper_bound_ok(NumberBound::Inclusive(a), n) == upper_bound_ok(NumberBound::Inclusive(b), n)
    &&& upper_bound_ok(NumberBound::Exclusive(a), n) == upper_bound_ok(NumberBound::Exclusive(b), n)
}

/// Equal bounds admit the same numbers.
proof fn lemma_equal_bounds(a: NumberBound, b: NumberBound, n: JsonNumber)
    requires
        number_bounds_equal(a, b),
    ensures
        lower_bound_ok(a, n) == lower_bound_ok(b, n),
        upper_bound_ok(a, n) == upper_bound_ok(b, n),
{
    match (a, b) {
        (NumberBound::Inclusive(x), NumberBound::Inclusive(y)) => lemma_equal_floats(x, y, n),
        (NumberBound::Exclusive(x), NumberBound::Exclusive(y)) => lemma_equal_floats(x, y, n),
        _ => {},
    }
}

/// Law: schemas equivalent by their syntax accept the same values.
pub proof fn lemma_obviously_equivalent_accepts(a: SchemaNode, b: SchemaNode, v: JsonValue, rx: spec_fn(Seq<char>, Seq<char>) -> bool)
    requires
        obviously_equivalent(a, b),
    ensures
        accepts(a, v, rx) == accepts(b, v, rx),
{
    match (a.kind, b.kind) {
        (SchemaNodeKind::Const(x), SchemaNodeKind::Const(y)) => {
            lemma_json_eq_symmetric(x, y);
            if json_eq(v, x) {
                lemma_json_eq_transitive(v, x, y);
            }
            if json_eq(v, y) {
                lemma_json_eq_transitive(v, y, x);
            }
        },
        (SchemaNodeKind::Const(x), SchemaNodeKind::Enum(ys)) => {
            let y = ys@[0];
            lemma_json_eq_symmetric(x, y);
            if json_eq(v, x) {
                lemma_json_eq_transitive(v, x, y);
            }
            if accepts(b, v, rx) {
                let i = choose|i: int| 0 <= i < ys@.len() && json_eq(v, #[trigger] ys@[i]);
                lemma_json_eq_transitive(v, y, x);
            }
        },
        (SchemaNodeKind::Enum(ys), SchemaNodeKind::Const(x)) => {
            let y = ys@[0];
            lemma_json_eq_symmetric(x, y);
            if json_eq(v, x) {
                lemma_json_eq_transitive(v, x, y);
            }
            if accepts(a, v, rx) {
                let i = choose|i: int| 0 <= i < ys@.len() && json_eq(v, #[trigger] ys@[i]);
                lemma_json_eq_transitive(v, y, x);
            }
        },
        (SchemaNodeKind::Enum(xs), SchemaNodeKind::Enum(ys)) => {
            if accepts(a, v, rx) {
                let i = choose|i: int| 0 <= i < xs@.len() && json_eq(v, #[trigger] xs@[i]);
                assert(enum_member(ys@, xs@[i]));
                let j = choose|j: int| 0 <= j < ys@.len() && json_eq(#[trigger] ys@[j], xs@[i]);
                lemma_json_eq_symmetric(ys@[j], xs@[i]);
                lemma_json_eq_transitive(v, xs@[i], ys@[j]);
            }
            if accepts(b, v, rx) {
                let j = choose|j: int| 0 <= j < ys@.len() && json_eq(v, #[trigger] ys@[j]);
                assert(enum_member(xs@, ys@[j]));
                let i = choose|i: int| 0 <= i < xs@.len() && json_eq(#[trigger] xs@[i], ys@[j]);
                lemma_json_eq_symmetric(xs@[i], ys@[j]);
                lemma_json_eq_transitive(v, ys@[j], xs@[i]);
            }
        },
        (
            SchemaNodeKind::Number { bounds: b1, multiple_of: m1, .. },
            SchemaNodeKind::Number { bounds: b2, multiple_of: m2, .. },
        ) => {
            if v is Number {
                let n = v->Number_0;
                lemma_equal_bounds(b1.lower, b2.lower, n);
                lemma_equal_bounds(b1.upper, b2.upper, n);
                match (m1, m2) {
                    (Some(x), Some(y)) => lemma_equal_floats(x.value, y.value, n),
                    _ => {},
                }
            }
        },
        (
            SchemaNodeKind::Integer { multiple_of: m1, .. },
            SchemaNodeKind::Integer { multiple_of: m2, .. },
        ) => {
            if v is Number {
                match (m1, m2) {
                    (Some(x), Some(y)) => lemma_equal_floats(x.value, y.value, v->Number_0),
                    _ => {},
                }
            }
        },
        _ => {},
    }
}

} // verus!
