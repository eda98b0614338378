//! Building blocks of failure explanations: names of schema kinds, the
//! spelling of count ranges and integer bounds, and the explanations for a
//! kind mismatch or an enumeration gap.

use vstd::prelude::*;
use crate::json::{JsonValue, json_eq, json_values_equal, str_eq};
use crate::schema::{SchemaNode, SchemaNodeKind, CountRange, IntegerBounds, IntegerMultipleOf, NumberBound, NumberBounds,
    NumberMultipleOf};
use crate::numeric::{lower_contains_view, upper_contains_view, number_bound_view};
use crate::json::{JsonNumber, float_rational, number_rational};
use crate::semantics::is_multiple_of_float;
use crate::scalar::{StringConstraints, string_subsumed, pattern_preserved, required_constraint_is_preserved};
use crate::explanation::{SubschemaExplanation, ExplanationSchemaSide};
use crate::text::{decimal, signed_decimal, push_u64_decimal, push_i64_decimal};

verus! {

/// The plural noun phrase naming the values a schema kind stands for.
pub open spec fn kind_name(kind: SchemaNodeKind) -> Seq<char> {
    match kind {
        SchemaNodeKind::Any => "any value"@,
        SchemaNodeKind::BoolSchema(b) => if b { "any value"@ } else { "no value"@ },
        SchemaNodeKind::String { .. } => "strings"@,
        SchemaNodeKind::Number { .. } => "numbers"@,
        SchemaNodeKind::Integer { .. } => "integers"@,
        SchemaNodeKind::Boolean { .. } => "booleans"@,
        SchemaNodeKind::Null { .. } => "null"@,
        SchemaNodeKind::Object { .. } => "objects"@,
        SchemaNodeKind::Array { .. } => "arrays"@,
        SchemaNodeKind::Enum(_) => "enumerated values"@,
        SchemaNodeKind::Const(_) => "a fixed value"@,
        SchemaNodeKind::AllOf(_) => "allOf-constrained values"@,
        SchemaNodeKind::AnyOf(_) => "anyOf-constrained values"@,
        SchemaNodeKind::OneOf(_) => "oneOf-constrained values"@,
        SchemaNodeKind::Not(_) => "negated-schema values"@,
        SchemaNodeKind::IfThenElse { .. } => "conditional-schema values"@,
    }
}

/// The name of the values a schema kind stands for (see `kind_name`).
pub fn schema_kind_name(kind: &SchemaNodeKind) -> (r: &'static str)
    ensures
        r@ == kind_name(*kind),
{
    match kind {
        SchemaNodeKind::Any => "any value",
        SchemaNodeKind::BoolSchema(b) => if *b { "any value" } else { "no value" },
        SchemaNodeKind::String { .. } => "strings",
        SchemaNodeKind::Number { .. } => "numbers",
        SchemaNodeKind::Integer { .. } => "integers",
        SchemaNodeKind::Boolean { .. } => "booleans",
        SchemaNodeKind::Null { .. } => "null",
        SchemaNodeKind::Object { .. } => "objects",
        SchemaNodeKind::Array { .. } => "arrays",
        SchemaNodeKind::Enum(_) => "enumerated values",
        SchemaNodeKind::Const(_) => "a fixed value",
        SchemaNodeKind::AllOf(_) => "allOf-constrained values",
        SchemaNodeKind::AnyOf(_) => "anyOf-constrained values",
        SchemaNodeKind::OneOf(_) => "oneOf-constrained values",
        SchemaNodeKind::Not(_) => "negated-schema values",
        SchemaNodeKind::IfThenElse { .. } => "conditional-schema values",
    }
}

/// The reason given when two schemas are of different kinds.
pub open spec fn kind_gap_reason(sub: SchemaNodeKind, sup: SchemaNodeKind) -> Seq<char> {
    "new values may be "@ + kind_name(sub) + ", but the previous schema only accepted "@ + kind_name(sup)
}

/// An explanation at the subset's root when the two schemas name different
/// kinds of values; `None` when the kind names agree.
pub fn explain_schema_kind_gap(sub: &SchemaNode, sup: &SchemaNode) -> (r: Option<SubschemaExplanation>)
    ensures
        r is Some <==> kind_name(sub.kind) != kind_name(sup.kind),
        r matches Some(e) ==> e.reason() == kind_gap_reason(sub.kind, sup.kind) && e.segments().len() == 0
            && e.path().len() == 0 && e.side() == ExplanationSchemaSide::Subset,
{
    let sub_name = schema_kind_name(&sub.kind);
    let sup_name = schema_kind_name(&sup.kind);
    if str_eq(sub_name, sup_name) {
        return None;
    }
    let mut reason = String::new();
    reason.push_str("new values may be ");
    reason.push_str(sub_name);
    reason.push_str(", but the previous schema only accepted ");
    reason.push_str(sup_name);
    assert(reason@ =~= kind_gap_reason(sub.kind, sup.kind));
    Some(SubschemaExplanation::new(reason))
}

/// Whether every value of the optional enumeration `sub` equals a member of
/// the optional enumeration `sup` (an absent `sup` allows everything, an
/// absent `sub` is only allowed by an absent `sup`).
pub open spec fn enum_included(sub: Option<Seq<JsonValue>>, sup: Option<Seq<JsonValue>>) -> bool {
    match sup {
        None => true,
        Some(b) => match sub {
            None => false,
            Some(a) => values_included(a, b),
        },
    }
}

/// Whether every value of `a` equals a member of `b`.
pub open spec fn values_included(a: Seq<JsonValue>, b: Seq<JsonValue>) -> bool {
    forall|i: int| 0 <= i < a.len() ==> #[trigger] enum_member(b, a[i])
}

/// Whether `x` equals a member of `values` (as `check_enum_inclusion`
/// compares them: member first).
pub open spec fn enum_member(values: Seq<JsonValue>, x: JsonValue) -> bool {
    exists|j: int| 0 <= j < values.len() && json_eq(#[trigger] values[j], x)
}

/// The view of an optional slice of values.
pub open spec fn enum_view(e: Option<&[JsonValue]>) -> Option<Seq<JsonValue>> {
    match e {
        Some(values) => Some(values@),
        None => None,
    }
}

/// Whether the enumeration `sub` is included in the enumeration `sup`
/// (see `enum_included`).
pub fn check_enum_inclusion(sub_enum: Option<&[JsonValue]>, sup_enum: Option<&[JsonValue]>) -> (r: bool)
    ensures
        r == enum_included(enum_view(sub_enum), enum_view(sup_enum)),
{
    let sup_values = match sup_enum {
        None => return true,
        Some(values) => values,
    };
    let sub_values = match sub_enum {
        None => return false,
        Some(values) => values,
    };
    let mut i: usize = 0;
    while i < sub_values.len()
        invariant
            i <= sub_values@.len(),
            sub_enum == Some(sub_values),
            sup_enum == Some(sup_values),
            forall|k: int| 0 <= k < i ==> #[trigger] enum_member(sup_values@, sub_values@[k]),
        decreases sub_values@.len() - i,
    {
        let mut found = false;
        let mut j: usize = 0;
        while j < sup_values.len() && !found
            invariant
                j <= sup_values@.len(),
                i < sub_values@.len(),
                sub_enum == Some(sub_values),
                sup_enum == Some(sup_values),
                found ==> enum_member(sup_values@, sub_values@[i as int]),
                !found ==> forall|m: int| 0 <= m < j ==> !json_eq(#[trigger] sup_values@[m], sub_values@[i as int]),
            decreases sup_values@.len() - j,
        {
            if json_values_equal(&sup_values[j], &sub_values[i]) {
                found = true;
            }
            j = j + 1;
        }
        if !found {
            assert(!enum_member(sup_values@, sub_values@[i as int]));
            assert(enum_view(sub_enum) == Some(sub_values@));
            assert(enum_view(sup_enum) == Some(sup_values@));
            let ghost a = sub_values@;
            let ghost b = sup_values@;
            assert(0 <= i < a.len() && !enum_member(b, a[i as int]));
            assert(!values_included(a, b));
            assert(!enum_included(enum_view(sub_enum), enum_view(sup_enum)));
            return false;
        }
        i = i + 1;
    }
    assert(enum_view(sub_enum) == Some(sub_values@));
    assert(enum_view(sup_enum) == Some(sup_values@));
    assert(values_included(sub_values@, sup_values@));
    true
}

/// An explanation at the subset's root when an enumeration is not included
/// in the comparison target's; `None` when it is.
pub fn explain_enumeration_gap(sub_enum: Option<&[JsonValue]>, sup_enum: Option<&[JsonValue]>) -> (r: Option<SubschemaExplanation>)
    ensures
        r is Some <==> !enum_included(enum_view(sub_enum), enum_view(sup_enum)),
        r matches Some(e) ==> e.reason() == "enumerated values are not contained by the comparison target"@
            && e.segments().len() == 0 && e.path().len() == 0 && e.side() == ExplanationSchemaSide::Subset,
{
    if check_enum_inclusion(sub_enum, sup_enum) {
        None
    } else {
        Some(SubschemaExplanation::new(String::from_str("enumerated values are not contained by the comparison target")))
    }
}

/// Whether every multiple required by `sub` is a multiple required by `sup`,
/// as far as integer divisors show it: an absent `sup` requires nothing; a
/// present one needs a present `sub` whose divisor is a multiple of `sup`'s.
pub open spec fn multiple_of_subsumed(sub: Option<IntegerMultipleOf>, sup: Option<IntegerMultipleOf>) -> bool {
    match sup {
        None => true,
        Some(e) => match sub {
            None => false,
            Some(d) => match (d.divisor, e.divisor) {
                (Some(x), Some(y)) => x > 0 && y > 0 && x % y == 0,
                _ => false,
            },
        },
    }
}

/// The view of an optional reference.
pub open spec fn opt_deref<T>(o: Option<&T>) -> Option<T> {
    match o {
        Some(x) => Some(*x),
        None => None,
    }
}

/// Whether `sub`'s `multipleOf` is at least as restrictive as `sup`'s (see
/// `multiple_of_subsumed`); then every integer multiple of `sub`'s divisor
/// is a multiple of `sup`'s.
pub fn integer_multiple_of_constraints_subsumed(sub_multiple_of: Option<&IntegerMultipleOf>, sup_multiple_of: Option<&IntegerMultipleOf>) -> (r: bool)
    ensures
        r == multiple_of_subsumed(opt_deref(sub_multiple_of), opt_deref(sup_multiple_of)),
        r && sup_multiple_of is Some ==> forall|n: int| n % (sub_multiple_of->0.divisor->0 as int) == 0
            ==> #[trigger] (n % (sup_multiple_of->0.divisor->0 as int)) == 0,
{
    let sup = match sup_multiple_of {
        Some(m) => m,
        None => return true,
    };
    let sub = match sub_multiple_of {
        Some(m) => m,
        None => return false,
    };
    let r = match sub.integer_divisor_is_multiple_of(sup) {
        Some(b) => b,
        None => false,
    };
    proof {
        if r {
            let x = sub.divisor->0 as int;
            let y = sup.divisor->0 as int;
            assert forall|n: int| n % x == 0 implies #[trigger] (n % y) == 0 by {
                lemma_divides_transitive(n, x, y);
            }
        }
    }
    r
}

/// Divisibility is transitive: `y | x` and `x | n` give `y | n`.
pub(crate) proof fn lemma_divides_transitive(n: int, x: int, y: int)
    requires
        x > 0,
        y > 0,
        x % y == 0,
        n % x == 0,
    ensures
        n % y == 0,
{
    vstd::arithmetic::div_mod::lemma_fundamental_div_mod(n, x);
    vstd::arithmetic::div_mod::lemma_fundamental_div_mod(x, y);
    let k = n / x;
    let j = x / y;
    assert(n == (j * k) * y) by (nonlinear_arith)
        requires
            n == x * k + 0,
            x == y * j + 0;
    vstd::arithmetic::div_mod::lemma_mod_multiples_basic(j * k, y);
}

/// The reason `explain_string_constraints` gives when the length range is
/// not contained.
pub open spec fn string_length_gap_reason(sub: CountRange<u64>, sup: CountRange<u64>) -> Seq<char> {
    "string length range "@ + count_range_text(sub) + " is not contained by required range "@ + count_range_text(sup)
}

/// The reason `explain_string_constraints` gives for string constraints
/// `sub` that are not at least as strict as `sup`: the length gap first,
/// then a required pattern not kept, then the enumeration gap.
pub open spec fn string_gap_reason(sub: StringConstraints, sup: StringConstraints) -> Seq<char> {
    if !(sup.length.min <= sub.length.min && (sup.length.max matches Some(m) ==> (sub.length.max matches Some(o) && o <= m))) {
        string_length_gap_reason(sub.length, sup.length)
    } else if !pattern_preserved(opt_deref(sub.pattern), opt_deref(sup.pattern)) {
        "string pattern does not preserve the comparison target's required pattern"@
    } else {
        "enumerated values are not contained by the comparison target"@
    }
}

/// An explanation at the subset's root of why string constraints `sub` are
/// not at least as strict as `sup` (see `string_constraints_subsumed`);
/// `None` when they are.
pub fn explain_string_constraints(sub: StringConstraints, sup: StringConstraints) -> (r: Option<SubschemaExplanation>)
    ensures
        r is Some <==> !string_subsumed(sub, sup),
        r matches Some(e) ==> e.reason() == string_gap_reason(sub, sup) && e.segments().len() == 0
            && e.path().len() == 0 && e.side() == ExplanationSchemaSide::Subset,
{
    if !sup.length.contains_range(sub.length) {
        let mut reason = String::new();
        reason.push_str("string length range ");
        let sub_text = format_count_range(sub.length);
        reason.push_str(sub_text.as_str());
        reason.push_str(" is not contained by required range ");
        let sup_text = format_count_range(sup.length);
        reason.push_str(sup_text.as_str());
        assert(reason@ =~= string_length_gap_reason(sub.length, sup.length));
        return Some(SubschemaExplanation::new(reason));
    }
    if !required_constraint_is_preserved(sub.pattern, sup.pattern) {
        return Some(SubschemaExplanation::new(
            String::from_str("string pattern does not preserve the comparison target's required pattern"),
        ));
    }
    explain_enumeration_gap(sub.enumeration, sup.enumeration)
}

/// Whether a number `multipleOf` is at least as restrictive as another, as
/// far as integer divisors show it (see `multiple_of_subsumed`).
pub open spec fn number_multiple_subsumed(sub: Option<NumberMultipleOf>, sup: Option<NumberMultipleOf>) -> bool {
    match sup {
        None => true,
        Some(e) => match sub {
            None => false,
            Some(d) => match (d.divisor, e.divisor) {
                (Some(x), Some(y)) => x > 0 && y > 0 && x % y == 0,
                _ => false,
            },
        },
    }
}

/// A number `multipleOf` whose divisor, when present, is the keyword's
/// value.
pub open spec fn number_multiple_wf(m: NumberMultipleOf) -> bool {
    m.divisor matches Some(d) ==> float_rational(m.value).0 == d * float_rational(m.value).1
}

/// Whether `sub`'s number `multipleOf` is at least as restrictive as
/// `sup`'s: an absent `sup` requires nothing; a present one needs a present
/// `sub` whose integer divisor is a multiple of `sup`'s. Then every number
/// that is a multiple of `sub`'s value is one of `sup`'s.
pub fn number_multiple_of_constraints_subsumed(sub_multiple_of: Option<&NumberMultipleOf>, sup_multiple_of: Option<&NumberMultipleOf>) -> (r: bool)
    ensures
        r == number_multiple_subsumed(opt_deref(sub_multiple_of), opt_deref(sup_multiple_of)),
        r && sup_multiple_of is Some && number_multiple_wf(*sub_multiple_of->0) && number_multiple_wf(*sup_multiple_of->0)
            ==> forall|n: JsonNumber| #[trigger] is_multiple_of_float(n, sub_multiple_of->0.value)
                ==> is_multiple_of_float(n, sup_multiple_of->0.value),
{
    let sup = match sup_multiple_of {
        Some(m) => m,
        None => return true,
    };
    let sub = match sub_multiple_of {
        Some(m) => m,
        None => return false,
    };
    let r = match sub.integer_divisor_is_multiple_of(sup) {
        Some(b) => b,
        None => false,
    };
    proof {
        if r && number_multiple_wf(*sub) && number_multiple_wf(*sup) {
            assert forall|n: JsonNumber| #[trigger] is_multiple_of_float(n, sub.value) implies is_multiple_of_float(n, sup.value) by {
                lemma_float_multiple_narrows(n, sub.value, sub.divisor->0 as int, sup.value, sup.divisor->0 as int);
            }
        }
    }
    r
}

/// `(p * b) % (m * b)` is zero exactly when `p % m` is, for positive `m`, `b`.
proof fn lemma_mod_zero_cancel(p: int, m: int, b: int)
    requires
        m > 0,
        b > 0,
    ensures
        ((p * b) % (m * b) == 0) == (p % m == 0),
{
    vstd::arithmetic::div_mod::lemma_fundamental_div_mod(p, m);
    let k = p / m;
    let rem = p % m;
    assert(p * b == (m * b) * k + rem * b) by (nonlinear_arith)
        requires
            p == m * k + rem;
    assert(0 <= rem * b < m * b) by (nonlinear_arith)
        requires
            0 <= rem < m,
            b > 0;
    vstd::arithmetic::div_mod::lemma_fundamental_div_mod_converse_mod(p * b, m * b, k, rem * b);
    assert(rem * b == 0 <==> rem == 0) by (nonlinear_arith)
        requires
            b > 0;
}

/// A multiple of a value `x` is a multiple of a value `y` dividing `x`.
pub(crate) proof fn lemma_float_multiple_narrows(n: JsonNumber, sub: u64, x: int, sup: u64, y: int)
    requires
        x > 0,
        y > 0,
        x % y == 0,
        float_rational(sub).0 == x * float_rational(sub).1,
        float_rational(sup).0 == y * float_rational(sup).1,
        is_multiple_of_float(n, sub),
    ensures
        is_multiple_of_float(n, sup),
{
    crate::numeric::lemma_number_denominator(n);
    crate::floats::lemma_float_rational_scaled(sub);
    crate::floats::lemma_float_rational_scaled(sup);
    let (p, q) = number_rational(n);
    let (a1, b1) = float_rational(sub);
    let (a2, b2) = float_rational(sup);
    assert(q * a1 == (q * x) * b1) by (nonlinear_arith)
        requires
            a1 == x * b1;
    assert(q * a2 == (q * y) * b2) by (nonlinear_arith)
        requires
            a2 == y * b2;
    assert(q * x > 0 && q * y > 0) by (nonlinear_arith)
        requires
            q > 0,
            x > 0,
            y > 0;
    assert(a2 != 0) by (nonlinear_arith)
        requires
            a2 == y * b2,
            y > 0,
            b2 > 0;
    lemma_mod_zero_cancel(p, q * x, b1);
    lemma_mod_zero_cancel(p, q * y, b2);
    vstd::arithmetic::div_mod::lemma_fundamental_div_mod(x, y);
    let j = x / y;
    assert(q * x == (q * y) * j) by (nonlinear_arith)
        requires
            x == y * j + 0;
    vstd::arithmetic::div_mod::lemma_mod_multiples_basic(j, q * y);
    assert((q * x) % (q * y) == 0) by (nonlinear_arith)
        requires
            q * x == (q * y) * j,
            (j * (q * y)) % (q * y) == 0;
    lemma_divides_transitive(p, q * x, q * y);
}

/// The spelling of a count range: `n` for a single count, `min..=max`, or
/// `min..` when unbounded.
pub open spec fn count_range_text(range: CountRange<u64>) -> Seq<char> {
    match range.max {
        Some(m) => if m == range.min {
            decimal(range.min as nat)
        } else {
            decimal(range.min as nat) + "..="@ + decimal(m as nat)
        },
        None => decimal(range.min as nat) + ".."@,
    }
}

/// Spells a count range (see `count_range_text`).
pub fn format_count_range(range: CountRange<u64>) -> (s: String)
    ensures
        s@ == count_range_text(range),
{
    let mut s = String::new();
    push_u64_decimal(&mut s, range.min);
    match range.max {
        Some(max) => if max != range.min {
            s.push_str("..=");
            push_u64_decimal(&mut s, max);
        },
        None => {
            s.push_str("..");
        },
    }
    assert(s@ =~= count_range_text(range));
    s
}

/// The spelling of integer bounds: `[lower, upper]`, with `-inf`/`+inf`
/// for an absent bound.
pub open spec fn integer_bounds_text(bounds: IntegerBounds) -> Seq<char> {
    "["@ + match bounds.lower {
        Some(l) => signed_decimal(l as int),
        None => "-inf"@,
    } + ", "@ + match bounds.upper {
        Some(u) => signed_decimal(u as int),
        None => "+inf"@,
    } + "]"@
}

/// Spells integer bounds (see `integer_bounds_text`).
pub fn format_integer_bounds(bounds: IntegerBounds) -> (s: String)
    ensures
        s@ == integer_bounds_text(bounds),
{
    let mut s = String::new();
    s.push_str("[");
    match bounds.lower {
        Some(l) => push_i64_decimal(&mut s, l),
        None => s.push_str("-inf"),
    }
    s.push_str(", ");
    match bounds.upper {
        Some(u) => push_i64_decimal(&mut s, u),
        None => s.push_str("+inf"),
    }
    s.push_str("]");
    assert(s@ =~= integer_bounds_text(bounds));
    s
}

/// The opening bracket of a number range: `(` for an exclusive lower bound,
/// `[` otherwise.
pub fn number_lower_delimiter(bound: NumberBound) -> (s: &'static str)
    ensures
        s@ == (if bound is Exclusive { "("@ } else { "["@ }),
{
    match bound {
        NumberBound::Exclusive(_) => "(",
        _ => "[",
    }
}

/// The closing bracket of a number range: `)` for an exclusive upper bound,
/// `]` otherwise.
pub fn number_upper_delimiter(bound: NumberBound) -> (s: &'static str)
    ensures
        s@ == (if bound is Exclusive { ")"@ } else { "]"@ }),
{
    match bound {
        NumberBound::Exclusive(_) => ")",
        _ => "]",
    }
}

/// Whether an array can have an item at position `index` under `maxItems`.
pub fn array_index_can_exist(max_items: Option<u64>, index: usize) -> (r: bool)
    ensures
        r == (max_items matches Some(m) ==> index < m),
{
    let index = index as u64;
    match max_items {
        None => true,
        Some(max_items) => index < max_items,
    }
}

/// The first constraint of a numeric schema that fails to be at least as
/// strict as the comparison target's.
#[derive(Clone, Copy, Debug, PartialEq, Eq, Structural)]
pub enum ConstraintGap {
    Bounds,
    MultipleOf,
    Enumeration,
}

/// The gap `integer_constraint_gap` reports: bounds first, then
/// `multipleOf`, then the enumeration; `None` when there is none.
pub open spec fn integer_gap(
    sub_bounds: IntegerBounds,
    sub_multiple_of: Option<IntegerMultipleOf>,
    sub_enum: Option<Seq<JsonValue>>,
    sup_bounds: IntegerBounds,
    sup_multiple_of: Option<IntegerMultipleOf>,
    sup_enum: Option<Seq<JsonValue>>,
) -> Option<ConstraintGap> {
    if !((sup_bounds.lower matches Some(l) ==> (sub_bounds.lower matches Some(o) && l <= o))
        && (sup_bounds.upper matches Some(u) ==> (sub_bounds.upper matches Some(o) && o <= u))) {
        Some(ConstraintGap::Bounds)
    } else if !multiple_of_subsumed(sub_multiple_of, sup_multiple_of) {
        Some(ConstraintGap::MultipleOf)
    } else if !enum_included(sub_enum, sup_enum) {
        Some(ConstraintGap::Enumeration)
    } else {
        None
    }
}

/// Which integer constraint of `sub` is not at least as strict as `sup`'s,
/// in the order a failure explanation names them.
pub fn integer_constraint_gap(
    sub_bounds: IntegerBounds,
    sub_multiple_of: Option<&IntegerMultipleOf>,
    sub_enum: Option<&[JsonValue]>,
    sup_bounds: IntegerBounds,
    sup_multiple_of: Option<&IntegerMultipleOf>,
    sup_enum: Option<&[JsonValue]>,
) -> (r: Option<ConstraintGap>)
    ensures
        r == integer_gap(sub_bounds, opt_deref(sub_multiple_of), enum_view(sub_enum), sup_bounds,
            opt_deref(sup_multiple_of), enum_view(sup_enum)),
{
    if !sup_bounds.contains_bounds(sub_bounds) {
        return Some(ConstraintGap::Bounds);
    }
    if !integer_multiple_of_constraints_subsumed(sub_multiple_of, sup_multiple_of) {
        return Some(ConstraintGap::MultipleOf);
    }
    if !check_enum_inclusion(sub_enum, sup_enum) {
        return Some(ConstraintGap::Enumeration);
    }
    None
}

/// The gap `number_constraint_gap` reports: bounds (compared as doubles)
/// first, then `multipleOf`, then the enumeration; `None` when there is none.
pub open spec fn number_gap(
    sub_bounds: NumberBounds,
    sub_multiple_of: Option<NumberMultipleOf>,
    sub_enum: Option<Seq<JsonValue>>,
    sup_bounds: NumberBounds,
    sup_multiple_of: Option<NumberMultipleOf>,
    sup_enum: Option<Seq<JsonValue>>,
) -> Option<ConstraintGap> {
    if !(lower_contains_view(number_bound_view(sup_bounds.lower), number_bound_view(sub_bounds.lower))
        && upper_contains_view(number_bound_view(sup_bounds.upper), number_bound_view(sub_bounds.upper))) {
        Some(ConstraintGap::Bounds)
    } else if !number_multiple_subsumed(sub_multiple_of, sup_multiple_of) {
        Some(ConstraintGap::MultipleOf)
    } else if !enum_included(sub_enum, sup_enum) {
        Some(ConstraintGap::Enumeration)
    } else {
        None
    }
}

/// Which number constraint of `sub` is not at least as strict as `sup`'s,
/// in the order a failure explanation names them.
pub fn number_constraint_gap(
    sub_bounds: NumberBounds,
    sub_multiple_of: Option<&NumberMultipleOf>,
    sub_enum: Option<&[JsonValue]>,
    sup_bounds: NumberBounds,
    sup_multiple_of: Option<&NumberMultipleOf>,
    sup_enum: Option<&[JsonValue]>,
) -> (r: Option<ConstraintGap>)
    ensures
        r == number_gap(sub_bounds, opt_deref(sub_multiple_of), enum_view(sub_enum), sup_bounds,
            opt_deref(sup_multiple_of), enum_view(sup_enum)),
{
    if !sup_bounds.contains_bounds(sub_bounds) {
        return Some(ConstraintGap::Bounds);
    }
    if !number_multiple_of_constraints_subsumed(sub_multiple_of, sup_multiple_of) {
        return Some(ConstraintGap::MultipleOf);
    }
    if !check_enum_inclusion(sub_enum, sup_enum) {
        return Some(ConstraintGap::Enumeration);
    }
    None
}

} // verus!
