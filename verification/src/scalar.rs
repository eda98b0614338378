//! Subset facts for string, number and integer constraints: each check that answers
//! `true` guarantees that every value meeting the subset's constraints meets
//! the superset's.

use vstd::prelude::*;
use crate::json::{JsonValue, JsonNumber, json_eq, number_is_integral, str_eq, lemma_json_eq_symmetric,
    lemma_json_eq_transitive};
use crate::schema::{CountRange, IntegerBounds, IntegerMultipleOf, PatternConstraint, NumberBounds, NumberMultipleOf};
use crate::semantics::{lower_bound_ok, upper_bound_ok, is_multiple_of_float};
use crate::numeric::{lower_contains_view, upper_contains_view, number_bound_view};
use crate::schema::NumberBound;
use crate::json::{number_rational, float_rational};
use crate::floats::{integral_value, finite_bound_to_i64, compare_float_bits, scaled_value, lemma_float_vs_rational,
    lemma_float_rational_scaled};
use crate::equivalence::floats_equal;
use vstd::arithmetic::power2::{pow2, lemma_pow2_pos};
use vstd::arithmetic::div_mod::lemma_fundamental_div_mod;
use crate::semantics::integer_value;
use crate::intervals::{in_u64_range, in_usize_range};
use crate::explainers::{enum_included, enum_view, enum_member, values_included, check_enum_inclusion, opt_deref,
    multiple_of_subsumed, number_multiple_subsumed, number_multiple_wf, lemma_float_multiple_narrows,
    lemma_divides_transitive};

verus! {

impl CountRange<u64> {
    /// Whether every count of `other` is a count of this range: its lower
    /// bound is no lower, and it is bounded above wherever this range is.
    pub fn contains_range(&self, other: CountRange<u64>) -> (r: bool)
        ensures
            r == (self.min <= other.min && (self.max matches Some(m) ==> (other.max matches Some(o) && o <= m))),
            r ==> forall|n: int| #[trigger] in_u64_range(other, n) ==> in_u64_range(*self, n),
    {
        self.min <= other.min && match self.max {
            None => true,
            Some(m) => match other.max {
                Some(o) => o <= m,
                None => false,
            },
        }
    }
}

impl CountRange<usize> {
    /// Whether every count of `other` is a count of this range: its lower
    /// bound is no lower, and it is bounded above wherever this range is.
    pub fn contains_range(&self, other: CountRange<usize>) -> (r: bool)
        ensures
            r == (self.min <= other.min && (self.max matches Some(m) ==> (other.max matches Some(o) && o <= m))),
            r ==> forall|n: int| #[trigger] in_usize_range(other, n) ==> in_usize_range(*self, n),
    {
        self.min <= other.min && match self.max {
            None => true,
            Some(m) => match other.max {
                Some(o) => o <= m,
                None => false,
            },
        }
    }
}

impl IntegerBounds {
    /// Whether every integer within `other` is within these bounds.
    pub fn contains_bounds(&self, other: IntegerBounds) -> (r: bool)
        ensures
            r == ((self.lower matches Some(l) ==> (other.lower matches Some(o) && l <= o))
                && (self.upper matches Some(u) ==> (other.upper matches Some(o) && o <= u))),
            r ==> forall|x: int| #[trigger] bounds_hold(other, x) ==> bounds_hold(*self, x),
    {
        let lower_ok = match self.lower {
            None => true,
            Some(l) => match other.lower {
                Some(o) => l <= o,
                None => false,
            },
        };
        let upper_ok = match self.upper {
            None => true,
            Some(u) => match other.upper {
                Some(o) => o <= u,
                None => false,
            },
        };
        lower_ok && upper_ok
    }
}

/// Whether an integer lies within integer bounds.
pub open spec fn bounds_hold(bounds: IntegerBounds, x: int) -> bool {
    (bounds.lower matches Some(l) ==> l <= x) && (bounds.upper matches Some(u) ==> x <= u)
}

/// The constraints of a string schema that decide which strings it accepts.
#[derive(Clone, Copy, Debug)]
pub struct StringConstraints<'a> {
    pub length: CountRange<u64>,
    pub pattern: Option<&'a PatternConstraint>,
    pub enumeration: Option<&'a [JsonValue]>,
}

/// Whether an optional enumeration lets `v` through.
pub open spec fn enum_allows(e: Option<Seq<JsonValue>>, v: JsonValue) -> bool {
    match e {
        None => true,
        Some(values) => exists|i: int| 0 <= i < values.len() && json_eq(v, #[trigger] values[i]),
    }
}

/// Whether string `t` meets string constraints, for regular-expression
/// matching `rx`.
pub open spec fn string_holds(c: StringConstraints, t: String, rx: spec_fn(Seq<char>, Seq<char>) -> bool) -> bool {
    &&& in_u64_range(c.length, t@.len() as int)
    &&& c.pattern matches Some(p) ==> rx(p.source@, t@)
    &&& enum_allows(enum_view(c.enumeration), JsonValue::String(t))
}

/// The test `required_constraint_is_preserved` performs: the superset
/// requires no pattern, or the very pattern the subset requires.
pub open spec fn pattern_preserved(sub: Option<PatternConstraint>, sup: Option<PatternConstraint>) -> bool {
    match sup {
        None => true,
        Some(q) => sub matches Some(p) && p.source@ == q.source@ && p.support == q.support,
    }
}

/// Whether the superset's optional pattern requirement is kept by the
/// subset (see `pattern_preserved`).
pub fn required_constraint_is_preserved(sub_constraint: Option<&PatternConstraint>, sup_constraint: Option<&PatternConstraint>) -> (r: bool)
    ensures
        r == pattern_preserved(opt_deref(sub_constraint), opt_deref(sup_constraint)),
{
    match sup_constraint {
        None => true,
        Some(q) => match sub_constraint {
            Some(p) => str_eq(p.source.as_str(), q.source.as_str()) && p.support == q.support,
            None => false,
        },
    }
}

/// Enumeration inclusion keeps every value: a value allowed by the subset's
/// enumeration is allowed by the superset's.
proof fn lemma_enum_included_allows(sub: Option<Seq<JsonValue>>, sup: Option<Seq<JsonValue>>, v: JsonValue)
    requires
        enum_included(sub, sup),
        enum_allows(sub, v),
    ensures
        enum_allows(sup, v),
{
    match sup {
        None => {},
        Some(b) => {
            let a = sub->0;
            let i = choose|i: int| 0 <= i < a.len() && json_eq(v, #[trigger] a[i]);
            assert(values_included(a, b));
            assert(enum_member(b, a[i]));
            let j = choose|j: int| 0 <= j < b.len() && json_eq(#[trigger] b[j], a[i]);
            lemma_json_eq_symmetric(b[j], a[i]);
            lemma_json_eq_transitive(v, a[i], b[j]);
        },
    }
}

/// The test `string_constraints_subsumed` performs.
pub open spec fn string_subsumed(sub: StringConstraints, sup: StringConstraints) -> bool {
    &&& sup.length.min <= sub.length.min
    &&& sup.length.max matches Some(m) ==> (sub.length.max matches Some(o) && o <= m)
    &&& pattern_preserved(opt_deref(sub.pattern), opt_deref(sup.pattern))
    &&& enum_included(enum_view(sub.enumeration), enum_view(sup.enumeration))
}

/// Whether string constraints `sub` are at least as strict as `sup`: the
/// length range is contained, a required pattern is kept, and the
/// enumeration is included. Then every string meeting `sub` meets `sup`.
pub fn string_constraints_subsumed(sub: StringConstraints, sup: StringConstraints) -> (r: bool)
    ensures
        r == string_subsumed(sub, sup),
        r ==> forall|t: String, rx: spec_fn(Seq<char>, Seq<char>) -> bool| #[trigger] string_holds(sub, t, rx)
            ==> string_holds(sup, t, rx),
{
    let r = sup.length.contains_range(sub.length) && required_constraint_is_preserved(sub.pattern, sup.pattern)
        && check_enum_inclusion(sub.enumeration, sup.enumeration);
    proof {
        assert forall|t: String, rx: spec_fn(Seq<char>, Seq<char>) -> bool| r && #[trigger] string_holds(sub, t, rx)
            implies string_holds(sup, t, rx) by {
            assert(in_u64_range(sub.length, t@.len() as int));
            lemma_enum_included_allows(enum_view(sub.enumeration), enum_view(sup.enumeration), JsonValue::String(t));
        }
    }
    r
}

/// Whether a number meets integer constraints: it is an integer within the
/// bounds, a multiple of the divisor (when `multipleOf` is a positive
/// integer), and allowed by the enumeration.
pub open spec fn integer_holds(bounds: IntegerBounds, multiple_of: Option<IntegerMultipleOf>, enumeration: Option<Seq<JsonValue>>, n: JsonNumber) -> bool {
    &&& number_is_integral(n)
    &&& bounds_hold(bounds, integer_value(n))
    &&& multiple_of matches Some(m) ==> (m.divisor matches Some(d) && d > 0 && integer_value(n) % (d as int) == 0)
    &&& enum_allows(enumeration, JsonValue::Number(n))
}

/// The test `integer_constraints_subsumed` performs.
pub open spec fn integer_subsumed(
    sub_bounds: IntegerBounds,
    sub_multiple_of: Option<IntegerMultipleOf>,
    sub_enum: Option<Seq<JsonValue>>,
    sup_bounds: IntegerBounds,
    sup_multiple_of: Option<IntegerMultipleOf>,
    sup_enum: Option<Seq<JsonValue>>,
) -> bool {
    &&& (sup_bounds.lower matches Some(l) ==> (sub_bounds.lower matches Some(o) && l <= o))
    &&& (sup_bounds.upper matches Some(u) ==> (sub_bounds.upper matches Some(o) && o <= u))
    &&& multiple_of_subsumed(sub_multiple_of, sup_multiple_of)
    &&& enum_included(sub_enum, sup_enum)
}

/// Whether `sub`'s integer `multipleOf` is at least as restrictive as
/// `sup`'s (see `multiple_of_subsumed`).
fn check_integer_multiple_of_inclusion(sub_multiple_of: Option<&IntegerMultipleOf>, sup_multiple_of: Option<&IntegerMultipleOf>) -> (r: bool)
    ensures
        r == multiple_of_subsumed(opt_deref(sub_multiple_of), opt_deref(sup_multiple_of)),
        r && sup_multiple_of is Some ==> forall|n: int| n % (sub_multiple_of->0.divisor->0 as int) == 0
            ==> #[trigger] (n % (sup_multiple_of->0.divisor->0 as int)) == 0,
{
    let sup = match sup_multiple_of {
        Some(m) => m,
        None => return true,
    };
    let sub = match sub_multiple_of {
        Some(m) => m,
        None => return false,
    };
    let r = match sub.integer_divisor_is_multiple_of(sup) {
        Some(b) => b,
        None => false,
    };
    proof {
        if r {
            let x = sub.divisor->0 as int;
            let y = sup.divisor->0 as int;
            assert forall|n: int| n % x == 0 implies #[trigger] (n % y) == 0 by {
                lemma_divides_transitive(n, x, y);
            }
        }
    }
    r
}

/// Whether `sub`'s number `multipleOf` is at least as restrictive as
/// `sup`'s (see `number_multiple_subsumed`).
fn check_multiple_of_inclusion(sub_multiple_of: Option<&NumberMultipleOf>, sup_multiple_of: Option<&NumberMultipleOf>) -> (r: bool)
    ensures
        r == number_multiple_subsumed(opt_deref(sub_multiple_of), opt_deref(sup_multiple_of)),
        r && sup_multiple_of is Some && number_multiple_wf(*sub_multiple_of->0) && number_multiple_wf(*sup_multiple_of->0)
            ==> forall|n: JsonNumber| #[trigger] is_multiple_of_float(n, sub_multiple_of->0.value)
                ==> is_multiple_of_float(n, sup_multiple_of->0.value),
{
    let sup = match sup_multiple_of {
        Some(m) => m,
        None => return true,
    };
    let sub = match sub_multiple_of {
        Some(m) => m,
        None => return false,
    };
    let r = match sub.integer_divisor_is_multiple_of(sup) {
        Some(b) => b,
        None => false,
    };
    proof {
        if r && number_multiple_wf(*sub) && number_multiple_wf(*sup) {
            assert forall|n: JsonNumber| #[trigger] is_multiple_of_float(n, sub.value) implies is_multiple_of_float(n, sup.value) by {
                lemma_float_multiple_narrows(n, sub.value, sub.divisor->0 as int, sup.value, sup.divisor->0 as int);
            }
        }
    }
    r
}

/// Whether integer constraints `sub` are at least as strict as `sup`: the
/// bounds are contained, `sup`'s divisor divides `sub`'s, and the
/// enumeration is included. Then every integer meeting `sub` meets `sup`.
pub fn integer_constraints_subsumed(
    sub_bounds: IntegerBounds,
    sub_multiple_of: Option<&IntegerMultipleOf>,
    sub_enum: Option<&[JsonValue]>,
    sup_bounds: IntegerBounds,
    sup_multiple_of: Option<&IntegerMultipleOf>,
    sup_enum: Option<&[JsonValue]>,
) -> (r: bool)
    ensures
        r == integer_subsumed(sub_bounds, opt_deref(sub_multiple_of), enum_view(sub_enum), sup_bounds,
            opt_deref(sup_multiple_of), enum_view(sup_enum)),
        r ==> forall|n: JsonNumber| #[trigger] integer_holds(sub_bounds, opt_deref(sub_multiple_of), enum_view(sub_enum), n)
            ==> integer_holds(sup_bounds, opt_deref(sup_multiple_of), enum_view(sup_enum), n),
{
    let r = sup_bounds.contains_bounds(sub_bounds)
        && check_integer_multiple_of_inclusion(sub_multiple_of, sup_multiple_of)
        && check_enum_inclusion(sub_enum, sup_enum);
    proof {
        assert forall|n: JsonNumber| r && #[trigger] integer_holds(sub_bounds, opt_deref(sub_multiple_of), enum_view(sub_enum), n)
            implies integer_holds(sup_bounds, opt_deref(sup_multiple_of), enum_view(sup_enum), n) by {
            assert(bounds_hold(sub_bounds, integer_value(n)));
            lemma_enum_included_allows(enum_view(sub_enum), enum_view(sup_enum), JsonValue::Number(n));
            if sup_multiple_of is Some {
                let x = integer_value(n);
                assert(x % (sub_multiple_of->0.divisor->0 as int) == 0);
            }
        }
    }
    r
}

/// Whether a number meets number constraints: within the bounds, a
/// multiple of the `multipleOf` value, and allowed by the enumeration.
pub open spec fn number_holds(bounds: NumberBounds, multiple_of: Option<NumberMultipleOf>, enumeration: Option<Seq<JsonValue>>, n: JsonNumber) -> bool {
    &&& lower_bound_ok(bounds.lower, n)
    &&& upper_bound_ok(bounds.upper, n)
    &&& multiple_of matches Some(m) ==> is_multiple_of_float(n, m.value)
    &&& enum_allows(enumeration, JsonValue::Number(n))
}

/// Whether number constraints `sub` are at least as strict as `sup`: the
/// bounds are contained (compared as doubles), `sup`'s integer divisor
/// divides `sub`'s, and the enumeration is included. Then every number
/// meeting `sub` meets `sup`, when each present `multipleOf`'s divisor is
/// its value.
pub fn number_constraints_subsumed(
    sub_bounds: NumberBounds,
    sub_multiple_of: Option<&NumberMultipleOf>,
    sub_enum: Option<&[JsonValue]>,
    sup_bounds: NumberBounds,
    sup_multiple_of: Option<&NumberMultipleOf>,
    sup_enum: Option<&[JsonValue]>,
) -> (r: bool)
    ensures
        r == (lower_contains_view(number_bound_view(sup_bounds.lower), number_bound_view(sub_bounds.lower))
            && upper_contains_view(number_bound_view(sup_bounds.upper), number_bound_view(sub_bounds.upper))
            && number_multiple_subsumed(opt_deref(sub_multiple_of), opt_deref(sup_multiple_of))
            && enum_included(enum_view(sub_enum), enum_view(sup_enum))),
        r && (sub_multiple_of matches Some(m) ==> number_multiple_wf(*m)) && (sup_multiple_of matches Some(m) ==> number_multiple_wf(*m))
            ==> forall|n: JsonNumber| #[trigger] number_holds(sub_bounds, opt_deref(sub_multiple_of), enum_view(sub_enum), n)
                ==> number_holds(sup_bounds, opt_deref(sup_multiple_of), enum_view(sup_enum), n),
{
    let r = sup_bounds.contains_bounds(sub_bounds)
        && check_multiple_of_inclusion(sub_multiple_of, sup_multiple_of)
        && check_enum_inclusion(sub_enum, sup_enum);
    proof {
        if r && (sub_multiple_of matches Some(m) ==> number_multiple_wf(*m)) && (sup_multiple_of matches Some(m) ==> number_multiple_wf(*m)) {
            assert forall|n: JsonNumber| #[trigger] number_holds(sub_bounds, opt_deref(sub_multiple_of), enum_view(sub_enum), n)
                implies number_holds(sup_bounds, opt_deref(sup_multiple_of), enum_view(sup_enum), n) by {
                assert(lower_bound_ok(sub_bounds.lower, n) && upper_bound_ok(sub_bounds.upper, n));
                lemma_enum_included_allows(enum_view(sub_enum), enum_view(sup_enum), JsonValue::Number(n));
                if sup_multiple_of is Some {
                    assert(is_multiple_of_float(n, sub_multiple_of->0.value));
                }
            }
        }
    }
    r
}

/// The integer pinned down by number bounds that are both inclusive at one
/// value (compared as doubles), when that value is an integer within `±2^53`.
pub open spec fn singleton_integer(bounds: NumberBounds) -> Option<int> {
    match (bounds.lower, bounds.upper) {
        (NumberBound::Inclusive(l), NumberBound::Inclusive(u)) => if floats_equal(l, u) { integral_value(l) } else { None },
        _ => None,
    }
}

/// The integer number bounds pin down (see `singleton_integer`); the bounds
/// then admit exactly that number.
pub fn singleton_integer_number_value(bounds: NumberBounds) -> (r: Option<i64>)
    ensures
        match r {
            Some(v) => singleton_integer(bounds) == Some(v as int),
            None => singleton_integer(bounds) is None,
        },
        r matches Some(v) ==> forall|n: JsonNumber| #[trigger] lower_bound_ok(bounds.lower, n) && upper_bound_ok(bounds.upper, n)
            <==> number_rational(n).0 == v * number_rational(n).1,
{
    let (lower, upper) = match (bounds.lower, bounds.upper) {
        (NumberBound::Inclusive(lower), NumberBound::Inclusive(upper)) => (lower, upper),
        _ => return None,
    };
    let same = match compare_float_bits(lower, upper) {
        Some(c) => c == 0,
        None => false,
    };
    if !same {
        return None;
    }
    let r = finite_bound_to_i64(lower);
    proof {
        if r is Some {
            let v = r->0 as int;
            lemma_pow2_pos(1074);
            lemma_float_rational_scaled(lower);
            let (p, q) = float_rational(lower);
            let big = pow2(1074) as int;
            let sv = scaled_value(lower);
            lemma_fundamental_div_mod(p, q);
            assert(p == q * v);
            assert(sv == v * big) by (nonlinear_arith)
                requires
                    p * big == sv * q,
                    p == q * v,
                    q > 0;
            assert forall|n: JsonNumber| #[trigger] lower_bound_ok(bounds.lower, n) && upper_bound_ok(bounds.upper, n)
                <==> number_rational(n).0 == v * number_rational(n).1 by {
                crate::numeric::lemma_number_denominator(n);
                let x = number_rational(n);
                lemma_float_vs_rational(lower, x);
                lemma_float_vs_rational(upper, x);
                assert((sv * x.1 <= x.0 * big && x.0 * big <= sv * x.1) <==> x.0 == v * x.1) by (nonlinear_arith)
                    requires
                        sv == v * big,
                        big > 0;
            }
        }
    }
    r
}

} // verus!
