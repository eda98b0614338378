//! The integer values of a `type: number` schema, when the schema makes
//! them finite and integral on its face: an enumeration of integers, or a
//! range pinned to one integer by equal inclusive bounds.

use vstd::prelude::*;
use vstd::arithmetic::power2::{pow2, lemma_pow2_pos, lemma_pow2_adds, lemma_pow2_strictly_increases};
use vstd::arithmetic::div_mod::{lemma_fundamental_div_mod, lemma_fundamental_div_mod_converse_div,
    lemma_fundamental_div_mod_converse_mod};
use crate::json::{JsonValue, JsonNumber, json_eq, json_wf, number_rational, float_rational, float_exponent_field,
    float_fraction_field, float_negative, lemma_json_eq_reflexive};
use crate::schema::{SchemaNode, SchemaNodeKind};
use crate::semantics::accepts;
use crate::floats::{scaled_value, float_is_nan, field_magnitude, integral_value, finite_bound_to_i64, MAX_EXACT_INTEGER,
    lemma_float_rational_scaled};
use crate::numeric::{IntervalView, numeric_bound, numeric_interval_bound, interval_admits, opt_interval_view,
    lemma_numeric_bound_sound};
use crate::copies::{json_same, copy_json_value, lemma_json_eq_copy};
use crate::membership::acceptance_deviation;
use crate::emptiness::{evaluator_agrees, evaluator_callable, evaluator_sound};

verus! {

/// Whether `v` is an integer that fits in an `i64`.
pub open spec fn small_integer(v: JsonValue) -> bool {
    match v {
        JsonValue::Number(JsonNumber::PosInt(u)) => u <= i64::MAX,
        JsonValue::Number(JsonNumber::NegInt(_)) => true,
        _ => false,
    }
}

/// The canonical JSON value of the integer `k`.
pub open spec fn integer_json(k: int) -> JsonValue {
    if k >= 0 {
        JsonValue::Number(JsonNumber::PosInt(k as u64))
    } else {
        JsonValue::Number(JsonNumber::NegInt(k as i64))
    }
}

/// The integer a range pins down: both ends present, included, not NaN,
/// equal, and an integer of magnitude at most 2^53 - 1.
pub open spec fn forced_integer(iv: IntervalView) -> Option<int> {
    match (iv.0, iv.1) {
        (Some(l), Some(u)) => {
            let p = pow2(1074) as int;
            if !l.2 && !u.2 && l.1 && u.1 && l.0 == u.0 && l.0 % p == 0
                && -MAX_EXACT_INTEGER <= l.0 / p <= MAX_EXACT_INTEGER {
                Some(l.0 / p)
            } else {
                None
            }
        },
        _ => None,
    }
}

/// The integer values of a number schema, `ev` being the evaluator:
/// - with an enumeration, its values when every one is an `i64` integer;
/// - otherwise none when its range is empty, and the integer its range pins
///   down when the evaluator accepts it;
/// - `None` when the values are not finite and integral on the schema's face.
pub open spec fn number_integer_values(s: SchemaNode, ev: spec_fn(SchemaNode, JsonValue) -> bool) -> Option<Seq<JsonValue>> {
    match s.kind {
        SchemaNodeKind::Number { enumeration, .. } => match enumeration {
            Some(values) => if forall|i: int| 0 <= i < values@.len() ==> small_integer(#[trigger] values@[i]) {
                Some(values@)
            } else {
                None
            },
            None => match numeric_bound(s) {
                None => None,
                Some(iv) => if iv.2 {
                    Some(Seq::empty())
                } else {
                    match forced_integer(iv) {
                        Some(k) => Some(if ev(s, integer_json(k)) { seq![integer_json(k)] } else { Seq::empty() }),
                        None => None,
                    }
                },
            },
        },
        _ => None,
    }
}

/// Whether an executable list copies a spec one.
pub open spec fn values_match(r: Option<Vec<JsonValue>>, d: Option<Seq<JsonValue>>) -> bool {
    match (r, d) {
        (None, None) => true,
        (Some(v), Some(s)) => v@.len() == s.len() && forall|i: int| 0 <= i < s.len() ==> json_same(#[trigger] s[i], v@[i]),
        _ => false,
    }
}

/// How the integer a double holds relates to its scaled value.
proof fn lemma_integral_scaled(bits: u64, k: int)
    requires
        -MAX_EXACT_INTEGER <= k <= MAX_EXACT_INTEGER,
    ensures
        integral_value(bits) == Some(k) <==> (!float_is_nan(bits) && scaled_value(bits) == k * pow2(1074)),
{
    lemma_float_rational_scaled(bits);
    lemma_pow2_pos(1074);
    let big = pow2(1074) as int;
    let (p, q) = float_rational(bits);
    if integral_value(bits) == Some(k) {
        lemma_fundamental_div_mod(p, q);
        assert(p == q * k);
        assert(scaled_value(bits) == k * big) by (nonlinear_arith)
            requires
                p * big == scaled_value(bits) * q,
                p == q * k,
                q > 0;
    }
    if !float_is_nan(bits) && scaled_value(bits) == k * big {
        assert(p == q * k) by (nonlinear_arith)
            requires
                p * big == scaled_value(bits) * q,
                scaled_value(bits) == k * big,
                big > 0;
        lemma_fundamental_div_mod_converse_mod(p, q, k, 0);
        lemma_fundamental_div_mod_converse_div(p, q, k, 0);
        if float_exponent_field(bits) == 0x7ff {
            assert(float_fraction_field(bits) == 0);
            lemma_pow2_adds(52, 2046);
            lemma_pow2_adds(53, 1074);
            lemma_pow2_strictly_increases(1127, 2098);
            vstd::arithmetic::power2::lemma2_to64();
            vstd::arithmetic::power2::lemma2_to64_rest();
            assert(field_magnitude(0x7ff, 0) == pow2(2098)) by {
                assert(pow2(52) == 0x10_0000_0000_0000);
            }
            assert(k * big < pow2(1127) && -(k * big) < pow2(1127)) by (nonlinear_arith)
                requires
                    -MAX_EXACT_INTEGER <= k <= MAX_EXACT_INTEGER,
                    big > 0,
                    pow2(1127) == pow2(53) * big,
                    pow2(53) == 0x20_0000_0000_0000;
        }
    }
}

/// A well-formed number whose value is the integer `k` (of magnitude at most
/// 2^53 - 1) is the canonical value of `k`.
proof fn lemma_canonical_integer(n: JsonNumber, k: int)
    requires
        crate::json::number_wf(n),
        -MAX_EXACT_INTEGER <= k <= MAX_EXACT_INTEGER,
        number_rational(n).0 == k * number_rational(n).1,
        number_rational(n).1 > 0,
    ensures
        JsonValue::Number(n) == integer_json(k),
{
    let (p, q) = number_rational(n);
    lemma_fundamental_div_mod_converse_mod(p, q, k, 0);
    lemma_fundamental_div_mod_converse_div(p, q, k, 0);
}

/// Whether every value is an `i64` integer.
fn all_small_integers(values: &Vec<JsonValue>) -> (r: bool)
    ensures
        r == forall|i: int| 0 <= i < values@.len() ==> small_integer(#[trigger] values@[i]),
{
    let mut i: usize = 0;
    while i < values.len()
        invariant
            i <= values@.len(),
            forall|k: int| 0 <= k < i ==> small_integer(#[trigger] values@[k]),
        decreases values@.len() - i,
    {
        let ok = match &values[i] {
            JsonValue::Number(JsonNumber::PosInt(u)) => *u <= i64::MAX as u64,
            JsonValue::Number(JsonNumber::NegInt(_)) => true,
            _ => false,
        };
        if !ok {
            return false;
        }
        i = i + 1;
    }
    true
}

/// Copies of `values`.
fn copy_values(values: &Vec<JsonValue>) -> (r: Vec<JsonValue>)
    ensures
        r@.len() == values@.len(),
        forall|i: int| 0 <= i < values@.len() ==> json_same(#[trigger] values@[i], r@[i]),
{
    let mut out: Vec<JsonValue> = Vec::new();
    let mut i: usize = 0;
    while i < values.len()
        invariant
            i <= values@.len(),
            out@.len() == i,
            forall|k: int| 0 <= k < i ==> json_same(#[trigger] values@[k], out@[k]),
        decreases values@.len() - i,
    {
        out.push(copy_json_value(&values[i]));
        i = i + 1;
    }
    out
}

/// The canonical value of an `i64`.
fn integer_value_of(k: i64) -> (r: JsonValue)
    ensures
        r == integer_json(k as int),
{
    if k >= 0 {
        JsonValue::Number(JsonNumber::PosInt(k as u64))
    } else {
        JsonValue::Number(JsonNumber::NegInt(k))
    }
}

/// The integer values of a `type: number` schema when they are finite and
/// integral on its face (see `number_integer_values`); `evaluator(schema,
/// value)` says whether a schema accepts a value.
pub fn finite_integer_number_values<G: Fn(&SchemaNode, &JsonValue) -> bool>(schema: &SchemaNode, evaluator: &G)
    -> (r: Option<Vec<JsonValue>>)
    requires
        evaluator_callable(*evaluator),
    ensures
        forall|ev: spec_fn(SchemaNode, JsonValue) -> bool| #[trigger] evaluator_agrees(*evaluator, ev)
            ==> values_match(r, number_integer_values(*schema, ev)),
{
    let enumeration = match &schema.kind {
        SchemaNodeKind::Number { enumeration, .. } => enumeration,
        _ => return None,
    };
    match enumeration {
        Some(values) => {
            if all_small_integers(values) {
                return Some(copy_values(values));
            }
            return None;
        },
        None => {},
    }
    let interval = match numeric_interval_bound(schema) {
        Some(iv) => iv,
        None => return None,
    };
    if interval.empty {
        let empty: Vec<JsonValue> = Vec::new();
        return Some(empty);
    }
    let (lower, upper) = match (interval.lower, interval.upper) {
        (Some(l), Some(u)) => (l, u),
        _ => return None,
    };
    let ghost iv = numeric_bound(*schema)->0;
    if !lower.inclusive || !upper.inclusive {
        return None;
    }
    let k = match (finite_bound_to_i64(lower.value), finite_bound_to_i64(upper.value)) {
        (Some(a), Some(b)) => {
            if a != b || a < -MAX_EXACT_INTEGER || a > MAX_EXACT_INTEGER {
                proof {
                    lemma_forced_from_bits(lower.value, upper.value, iv);
                }
                return None;
            }
            a
        },
        _ => {
            proof {
                lemma_forced_from_bits(lower.value, upper.value, iv);
            }
            return None;
        },
    };
    proof {
        lemma_forced_from_bits(lower.value, upper.value, iv);
    }
    let candidate = integer_value_of(k);
    let accepted = evaluator(schema, &candidate);
    proof {
        assert forall|ev: spec_fn(SchemaNode, JsonValue) -> bool| #[trigger] evaluator_agrees(*evaluator, ev)
            implies accepted == ev(*schema, integer_json(k as int)) by {
            assert((*evaluator).ensures((schema, &candidate), accepted));
        }
    }
    let mut out: Vec<JsonValue> = Vec::new();
    if accepted {
        out.push(candidate);
    }
    proof {
        assert forall|ev: spec_fn(SchemaNode, JsonValue) -> bool| #[trigger] evaluator_agrees(*evaluator, ev)
            implies values_match(Some(out), number_integer_values(*schema, ev)) by {
            let d = number_integer_values(*schema, ev)->0;
            if accepted {
                assert(d == seq![integer_json(k as int)]);
                assert(json_same(d[0], out@[0]));
            } else {
                assert(d == Seq::<JsonValue>::empty());
            }
        }
    }
    Some(out)
}

/// What the bits of two included ends say of the integer they pin down.
proof fn lemma_forced_from_bits(lo: u64, hi: u64, iv: IntervalView)
    requires
        iv.0 == Some((scaled_value(lo), true, float_is_nan(lo))),
        iv.1 == Some((scaled_value(hi), true, float_is_nan(hi))),
    ensures
        match forced_integer(iv) {
            Some(k) => integral_value(lo) == Some(k) && integral_value(hi) == Some(k),
            None => forall|a: int| #[trigger] integral_value(lo) == Some(a) && integral_value(hi) == Some(a)
                ==> !(-MAX_EXACT_INTEGER <= a <= MAX_EXACT_INTEGER),
        },
{
    lemma_pow2_pos(1074);
    let big = pow2(1074) as int;
    match forced_integer(iv) {
        Some(k) => {
            lemma_fundamental_div_mod(scaled_value(lo), big);
            assert(scaled_value(lo) == k * big) by (nonlinear_arith)
                requires
                    scaled_value(lo) == big * (scaled_value(lo) / big) + scaled_value(lo) % big,
                    scaled_value(lo) % big == 0,
                    k == scaled_value(lo) / big;
            lemma_integral_scaled(lo, k);
            lemma_integral_scaled(hi, k);
        },
        None => {
            assert forall|a: int| #[trigger] integral_value(lo) == Some(a) && integral_value(hi) == Some(a)
                implies !(-MAX_EXACT_INTEGER <= a <= MAX_EXACT_INTEGER) by {
                if -MAX_EXACT_INTEGER <= a <= MAX_EXACT_INTEGER {
                    lemma_integral_scaled(lo, a);
                    lemma_integral_scaled(hi, a);
                    lemma_fundamental_div_mod_converse_mod(scaled_value(lo), big, a, 0);
                    lemma_fundamental_div_mod_converse_div(scaled_value(lo), big, a, 0);
                }
            }
        },
    }
}

/// Law: every well-formed value a number schema accepts equals one of its
/// integer values, when those are known, for every regex semantics and
/// every evaluator sound for it.
pub proof fn lemma_number_integer_values_sound(s: SchemaNode, v: JsonValue, ev: spec_fn(SchemaNode, JsonValue) -> bool,
    rx: spec_fn(Seq<char>, Seq<char>) -> bool)
    requires
        evaluator_sound(ev, rx),
        json_wf(v),
        number_integer_values(s, ev) is Some,
        accepts(s, v, rx),
    ensures
        exists|i: int| 0 <= i < number_integer_values(s, ev)->0.len()
            && json_eq(v, #[trigger] number_integer_values(s, ev)->0[i]),
{
    let d = number_integer_values(s, ev)->0;
    match s.kind {
        SchemaNodeKind::Number { enumeration, .. } => match enumeration {
            Some(values) => {
                let i = choose|i: int| 0 <= i < values@.len() && json_eq(v, #[trigger] values@[i]);
                assert(json_eq(v, d[i]));
            },
            None => {
                let n = v->Number_0;
                lemma_numeric_bound_sound(s, n, rx);
                let iv = numeric_bound(s)->0;
                let k = forced_integer(iv)->0;
                let big = pow2(1074) as int;
                lemma_pow2_pos(1074);
                let (p, q) = number_rational(n);
                match n {
                    JsonNumber::Float(bits) => { lemma_float_rational_scaled(bits); },
                    _ => {},
                }
                assert(q > 0);
                let l = iv.0->0;
                lemma_fundamental_div_mod(l.0, big);
                assert(l.0 == k * big) by (nonlinear_arith)
                    requires
                        l.0 == big * (l.0 / big) + l.0 % big,
                        l.0 % big == 0,
                        k == l.0 / big;
                assert(p == k * q) by (nonlinear_arith)
                    requires
                        k * big * q <= p * big,
                        p * big <= k * big * q,
                        big > 0;
                lemma_canonical_integer(n, k);
                lemma_json_eq_reflexive(v);
                assert(ev(s, integer_json(k)));
                assert(json_eq(v, d[0]));
            },
        },
        _ => {},
    }
}

} // verus!
