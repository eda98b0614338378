//! A finite candidate set for a split `allOf` integer range: when an
//! `allOf` with an integer conjunct accepts only numbers, within a range
//! whose ends are doubles of magnitude below 2^53, the integers between the
//! floor of its lower end and the ceiling of its upper end (at most 257 of
//! them) hold every value it accepts.

use vstd::prelude::*;
use vstd::arithmetic::power2::{pow2, lemma_pow2_pos, lemma_pow2_unfold, lemma_pow2_strictly_increases};
use vstd::arithmetic::div_mod::{lemma_fundamental_div_mod, lemma_fundamental_div_mod_converse_div};
use crate::json::{JsonValue, JsonNumber, JSON_TYPE_NUMBER, float_rational, float_exponent_field, float_fraction_field,
    float_negative, json_eq, json_wf, number_rational, number_is_integral, number_wf};
use crate::floats::{scaled_value, float_is_nan, field_magnitude, lemma_float_rational_scaled, MAX_EXACT_INTEGER,
    small_integer_bits, compare_float_bits};
use crate::schema::{SchemaNode, SchemaNodeKind};
use crate::semantics::accepts;
use crate::shape::{has_direct_integer_conjunct, allof_has_direct_integer_conjunct};
use crate::types::{may_accept_other_type, possible_json_type_mask, lemma_possible_mask_tests, lemma_type_restriction};
use crate::numeric::{BoundView, numeric_bound, numeric_interval_bound, interval_view, lemma_numeric_bound_sound,
    lemma_number_denominator, interval_admits, lower_admits, upper_admits};

verus! {

/// The floor of `a / d` (division rounds down for `d > 0`) of a negated
/// non-negative `a`: minus the quotient, one less when `d` does not divide.
proof fn lemma_negated_floor(a: int, d: int)
    requires
        a >= 0,
        d > 0,
    ensures
        (-a) / d == -(a / d) - (if a % d != 0 { 1int } else { 0int }),
{
    lemma_fundamental_div_mod(a, d);
    let t = a / d;
    let r = a % d;
    if r == 0 {
        assert(-a == d * (-t) + 0) by (nonlinear_arith)
            requires
                a == d * t + r,
                r == 0;
        lemma_fundamental_div_mod_converse_div(-a, d, -t, 0);
    } else {
        assert(-a == d * (-t - 1) + (d - r)) by (nonlinear_arith)
            requires
                a == d * t + r;
        lemma_fundamental_div_mod_converse_div(-a, d, -t - 1, d - r);
    }
}

/// Equal fractions have equal floors: `p/q == s/b` with positive
/// denominators gives `p / q == s / b`.
proof fn lemma_equal_fraction_floor(p: int, q: int, s: int, b: int)
    requires
        q > 0,
        b > 0,
        p * b == s * q,
    ensures
        p / q == s / b,
{
    lemma_fundamental_div_mod(p, q);
    let t = p / q;
    let r = p % q;
    let rr = s - t * b;
    assert(rr * q == r * b) by (nonlinear_arith)
        requires
            p == q * t + r,
            p * b == s * q,
            rr == s - t * b;
    assert(0 <= rr < b) by (nonlinear_arith)
        requires
            rr * q == r * b,
            0 <= r < q,
            q > 0,
            b > 0;
    assert(s == b * t + rr) by (nonlinear_arith)
        requires
            rr == s - t * b;
    lemma_fundamental_div_mod_converse_div(s, b, t, rr);
}

/// The floor of a double's value.
pub open spec fn float_floor(bits: u64) -> int {
    scaled_value(bits) / (pow2(1074) as int)
}

/// The ceiling of a double's value.
pub open spec fn float_ceil(bits: u64) -> int {
    -((-scaled_value(bits)) / (pow2(1074) as int))
}

/// The floor and the ceiling of a double of magnitude at most 2^53 - 1.
fn exact_floor_ceil(bits: u64) -> (r: (i64, i64))
    requires
        !float_is_nan(bits),
        -MAX_EXACT_INTEGER * pow2(1074) <= scaled_value(bits) <= MAX_EXACT_INTEGER * pow2(1074),
    ensures
        r.0 == float_floor(bits),
        r.1 == float_ceil(bits),
{
    let e = (bits / 0x10_0000_0000_0000) % 0x800;
    let f = bits % 0x10_0000_0000_0000;
    let negative = bits >= 0x8000_0000_0000_0000;
    proof {
        vstd::arithmetic::power2::lemma2_to64();
        vstd::arithmetic::power2::lemma2_to64_rest();
        assert(float_exponent_field(bits) == e && float_fraction_field(bits) == f && float_negative(bits) == negative);
        lemma_float_rational_scaled(bits);
        lemma_pow2_pos(1074);
    }
    let ghost p = float_rational(bits).0;
    let ghost q = float_rational(bits).1;
    proof {
        lemma_equal_fraction_floor(p, q, scaled_value(bits), pow2(1074) as int);
        assert((-p) * (pow2(1074) as int) == (-scaled_value(bits)) * q) by (nonlinear_arith)
            requires
                p * pow2(1074) == scaled_value(bits) * q;
        lemma_equal_fraction_floor(-p, q, -scaled_value(bits), pow2(1074) as int);
    }
    if e >= 1075 {
        let m: u64 = f + 0x10_0000_0000_0000;
        proof {
            let k = (e - 1075) as nat;
            let sm: int = if negative { -(m as int) } else { m as int };
            assert(float_rational(bits) == (sm * pow2(k), 1int));
            if k >= 1 {
                lemma_pow2_unfold(k);
                lemma_pow2_pos((k - 1) as nat);
                assert(m as int * pow2(k) >= 0x20_0000_0000_0000) by (nonlinear_arith)
                    requires
                        m >= 0x10_0000_0000_0000,
                        pow2(k) == 2 * pow2((k - 1) as nat),
                        pow2((k - 1) as nat) >= 1;
                assert(sm * pow2(k) >= 0x20_0000_0000_0000 || sm * pow2(k) <= -0x20_0000_0000_0000) by (nonlinear_arith)
                    requires
                        m as int * pow2(k) >= 0x20_0000_0000_0000,
                        sm == m || sm == -(m as int);
                assert(p * pow2(1074) == scaled_value(bits));
                assert(false) by (nonlinear_arith)
                    requires
                        p >= 0x20_0000_0000_0000 || p <= -0x20_0000_0000_0000,
                        p * pow2(1074) == scaled_value(bits),
                        pow2(1074) > 0,
                        -MAX_EXACT_INTEGER * pow2(1074) <= scaled_value(bits) <= MAX_EXACT_INTEGER * pow2(1074),
                        MAX_EXACT_INTEGER == 0x1f_ffff_ffff_ffff;
            }
            assert(sm * pow2(0) == sm);
            assert(p == sm && q == 1);
            vstd::arithmetic::div_mod::lemma_div_by_self(1);
            assert(p / 1 == p);
            assert((-p) / 1 == -p);
        }
        let v: i64 = if negative { -(m as i64) } else { m as i64 };
        return (v, v);
    }
    let mag: u64 = if e == 0 { f } else { f + 0x10_0000_0000_0000 };
    let k: u64 = if e == 0 { 1074 } else { 1075 - e };
    proof {
        let sm: int = if negative { -(mag as int) } else { mag as int };
        assert(float_rational(bits) == (sm, pow2(k as nat) as int));
        lemma_pow2_pos(k as nat);
    }
    let mut quotient: u64 = 0;
    let mut inexact: bool = mag != 0;
    if k < 64 {
        let mut d: u64 = 1;
        let mut i: u64 = 0;
        while i < k
            invariant
                i <= k < 64,
                d as int == pow2(i as nat),
            decreases k - i,
        {
            proof {
                lemma_pow2_unfold((i + 1) as nat);
                vstd::arithmetic::power2::lemma2_to64_rest();
                if i < 63 {
                    lemma_pow2_strictly_increases((i + 1) as nat, 64);
                }
            }
            d = d * 2;
            i = i + 1;
        }
        quotient = mag / d;
        inexact = mag % d != 0;
    } else {
        proof {
            lemma_pow2_strictly_increases(53, k as nat);
            vstd::arithmetic::power2::lemma2_to64_rest();
            vstd::arithmetic::div_mod::lemma_small_mod(mag as nat, pow2(k as nat));
            vstd::arithmetic::div_mod::lemma_basic_div(mag as int, pow2(k as nat) as int);
        }
    }
    proof {
        lemma_negated_floor(mag as int, q);
        assert(quotient as int == (mag as int) / q);
        assert(inexact == ((mag as int) % q != 0));
    }
    let step: u64 = if inexact { 1 } else { 0 };
    if negative {
        (-((quotient + step) as i64), -(quotient as i64))
    } else {
        (quotient as i64, (quotient + step) as i64)
    }
}

/// A value at most `k * d` has floor at most `k`.
proof fn lemma_floor_at_most(a: int, k: int, d: int)
    requires
        d > 0,
        a <= k * d,
    ensures
        a / d <= k,
{
    lemma_fundamental_div_mod(a, d);
    let t = a / d;
    assert(t <= k) by (nonlinear_arith)
        requires
            a == d * t + a % d,
            a % d >= 0,
            a <= k * d,
            d > 0;
}

/// A value at least `k * d` has floor at least `k`.
proof fn lemma_floor_at_least(a: int, k: int, d: int)
    requires
        d > 0,
        a >= k * d,
    ensures
        a / d >= k,
{
    lemma_fundamental_div_mod(a, d);
    let t = a / d;
    assert(t >= k) by (nonlinear_arith)
        requires
            a == d * t + a % d,
            a % d < d,
            a >= k * d,
            d > 0;
}

/// No double lies strictly between 2^53 - 1 and 2^53 (or between their
/// negations): beyond `±(2^53 - 1)` a double is at least 2^53 in magnitude.
proof fn lemma_beyond_exact(bits: u64)
    ensures
        scaled_value(bits) > MAX_EXACT_INTEGER * pow2(1074) ==> scaled_value(bits) >= 0x20_0000_0000_0000 * pow2(1074),
        scaled_value(bits) < -MAX_EXACT_INTEGER * pow2(1074) ==> scaled_value(bits) <= -0x20_0000_0000_0000 * pow2(1074),
{
    let e = float_exponent_field(bits);
    let f = float_fraction_field(bits);
    let m = field_magnitude(e, f);
    let big = pow2(1074) as int;
    lemma_pow2_pos(1074);
    vstd::arithmetic::power2::lemma2_to64();
    assert(0 <= e <= 0x7ff && 0 <= f < 0x10_0000_0000_0000) by {
        vstd::arithmetic::div_mod::lemma_mod_bound(bits as int / 0x10_0000_0000_0000, 0x800);
        vstd::arithmetic::div_mod::lemma_mod_bound(bits as int, 0x10_0000_0000_0000);
        vstd::arithmetic::div_mod::lemma_div_pos_is_pos(bits as int, 0x10_0000_0000_0000);
    }
    if e == 0 {
        vstd::arithmetic::power2::lemma2_to64_rest();
        lemma_pow2_strictly_increases(52, 1074);
        assert(m <= MAX_EXACT_INTEGER * big) by (nonlinear_arith)
            requires
                m == f,
                f < 0x10_0000_0000_0000,
                big > 0x10_0000_0000_0000;
    } else if e <= 1075 {
        let p = pow2((e - 1) as nat) as int;
        lemma_pow2_pos((e - 1) as nat);
        if e - 1 < 1074 {
            lemma_pow2_strictly_increases((e - 1) as nat, 1074);
        }
        assert(m <= MAX_EXACT_INTEGER * big) by (nonlinear_arith)
            requires
                m == (f + 0x10_0000_0000_0000) * p,
                f < 0x10_0000_0000_0000,
                0 < p <= big,
                MAX_EXACT_INTEGER == 0x1f_ffff_ffff_ffff;
    } else {
        let p = pow2((e - 1) as nat) as int;
        lemma_pow2_unfold(1075);
        if e - 1 > 1075 {
            lemma_pow2_strictly_increases(1075, (e - 1) as nat);
        }
        assert(m >= 0x20_0000_0000_0000 * big) by (nonlinear_arith)
            requires
                m == (f + 0x10_0000_0000_0000) * p,
                f >= 0,
                p >= pow2(1075),
                pow2(1075) == 2 * big,
                big > 0;
    }
}

/// The JSON number for the integer `k`, as a parser produces it.
pub open spec fn integer_json(k: int) -> JsonValue {
    if k >= 0 {
        JsonValue::Number(JsonNumber::PosInt(k as u64))
    } else {
        JsonValue::Number(JsonNumber::NegInt(k as i64))
    }
}

/// The integers from `start` to `end` as JSON numbers.
pub open spec fn integer_range_values(start: int, end: int) -> Seq<JsonValue> {
    Seq::new((end - start + 1) as nat, |i: int| integer_json(start + i))
}

/// The floor of an end's value.
pub open spec fn view_floor(b: BoundView) -> int {
    b.0 / (pow2(1074) as int)
}

/// The ceiling of an end's value.
pub open spec fn view_ceil(b: BoundView) -> int {
    -((-b.0) / (pow2(1074) as int))
}

/// The candidates `finite_split_allof_integer_values` gives: for an `allOf`
/// with a direct integer conjunct that may accept numbers only, nothing when
/// its number range is empty; when the range has both ends, neither a NaN,
/// the lower at least `-(2^53 - 1)` and the upper at most `2^53 - 1`, the
/// integers from the floor of the lower to the ceiling of the upper, if
/// there are at most 257 of them; otherwise no candidate set (`None`).
pub open spec fn split_allof_integer_candidates(s: SchemaNode) -> Option<Seq<JsonValue>> {
    if !(s.kind is AllOf) || !has_direct_integer_conjunct(s) || may_accept_other_type(s, JSON_TYPE_NUMBER) {
        None
    } else {
        match numeric_bound(s) {
            None => None,
            Some(iv) => if iv.2 {
                Some(Seq::empty())
            } else {
                match (iv.0, iv.1) {
                    (Some(l), Some(u)) => if !l.2 && !u.2 && l.0 >= -MAX_EXACT_INTEGER * pow2(1074)
                        && u.0 <= MAX_EXACT_INTEGER * pow2(1074) && view_floor(l) <= view_ceil(u)
                        && view_ceil(u) - view_floor(l) <= 256 {
                        Some(integer_range_values(view_floor(l), view_ceil(u)))
                    } else {
                        None
                    },
                    _ => None,
                }
            },
        }
    }
}

/// A finite superset of the values a split `allOf` integer range accepts
/// (see `split_allof_integer_candidates`).
pub fn finite_split_allof_integer_values(schema: &SchemaNode) -> (r: Option<Vec<JsonValue>>)
    ensures
        match r {
            Some(values) => split_allof_integer_candidates(*schema) == Some(values@),
            None => split_allof_integer_candidates(*schema) is None,
        },
{
    match &schema.kind {
        SchemaNodeKind::AllOf(_) => {},
        _ => return None,
    }
    if !allof_has_direct_integer_conjunct(schema) {
        return None;
    }
    let mask = possible_json_type_mask(schema);
    proof {
        lemma_possible_mask_tests(mask, *schema, JSON_TYPE_NUMBER);
    }
    if mask & !JSON_TYPE_NUMBER != 0 {
        return None;
    }
    let interval = match numeric_interval_bound(schema) {
        Some(iv) => iv,
        None => return None,
    };
    if interval.empty {
        return Some(Vec::new());
    }
    let (lower, upper) = match (interval.lower, interval.upper) {
        (Some(l), Some(u)) => (l, u),
        _ => return None,
    };
    let neg_max = small_integer_bits(-MAX_EXACT_INTEGER);
    let pos_max = small_integer_bits(MAX_EXACT_INTEGER);
    let ghost big = pow2(1074) as int;
    proof {
        lemma_pow2_pos(1074);
        lemma_beyond_exact(lower.value);
        lemma_beyond_exact(upper.value);
    }
    match compare_float_bits(lower.value, neg_max) {
        None => return None,
        Some(c) => if c < 0 {
            return None;
        },
    }
    match compare_float_bits(upper.value, pos_max) {
        None => return None,
        Some(c) => if c > 0 {
            return None;
        },
    }
    let ghost lv = scaled_value(lower.value);
    let ghost uv = scaled_value(upper.value);
    proof {
        lemma_floor_at_least(-uv, -MAX_EXACT_INTEGER as int, big);
        lemma_floor_at_least(lv, -MAX_EXACT_INTEGER as int, big);
    }
    if compare_float_bits(lower.value, pos_max) == Some(1i8) {
        proof {
            lemma_floor_at_least(lv, 0x20_0000_0000_0000, big);
        }
        return None;
    }
    if compare_float_bits(upper.value, neg_max) == Some(-1i8) {
        proof {
            lemma_floor_at_least(-uv, 0x20_0000_0000_0000, big);
        }
        return None;
    }
    proof {
        lemma_floor_at_most(lv, MAX_EXACT_INTEGER as int, big);
        lemma_floor_at_most(-uv, MAX_EXACT_INTEGER as int, big);
    }
    let (start, _) = exact_floor_ceil(lower.value);
    let (_, end) = exact_floor_ceil(upper.value);
    if start > end {
        return None;
    }
    if end - start > 256 {
        return None;
    }
    let mut values: Vec<JsonValue> = Vec::new();
    let mut n: i64 = start;
    while n <= end
        invariant
            start <= n <= end + 1,
            end - start <= 256,
            -MAX_EXACT_INTEGER - 1 <= start,
            end <= MAX_EXACT_INTEGER + 1,
            values@ == integer_range_values(start as int, n - 1),
        decreases end + 1 - n,
    {
        let v = if n >= 0 {
            JsonValue::Number(JsonNumber::PosInt(n as u64))
        } else {
            JsonValue::Number(JsonNumber::NegInt(n))
        };
        values.push(v);
        proof {
            assert(values@ =~= integer_range_values(start as int, n as int));
        }
        n = n + 1;
    }
    Some(values)
}

/// Law: the candidates hold every well-formed value the schema accepts.
pub proof fn lemma_split_allof_integer_candidates_cover(s: SchemaNode, v: JsonValue, rx: spec_fn(Seq<char>, Seq<char>) -> bool)
    requires
        split_allof_integer_candidates(s) is Some,
        accepts(s, v, rx),
        json_wf(v),
    ensures
        exists|i: int| 0 <= i < split_allof_integer_candidates(s)->0.len()
            && json_eq(v, #[trigger] split_allof_integer_candidates(s)->0[i]),
{
    lemma_type_restriction(s, JSON_TYPE_NUMBER, v, rx);
    let n = v->Number_0;
    let children = s.kind->AllOf_0;
    let c = choose|i: int| 0 <= i < children@.len() && (#[trigger] children@[i]).kind is Integer;
    assert(accepts(children@[c], v, rx));
    assert(number_is_integral(n));
    lemma_numeric_bound_sound(s, n, rx);
    lemma_number_denominator(n);
    lemma_pow2_pos(1074);
    let big = pow2(1074) as int;
    let iv = numeric_bound(s)->0;
    let x = number_rational(n);
    let p = x.0;
    let q = x.1;
    assert(interval_admits(iv, x));
    let l = iv.0->0;
    let u = iv.1->0;
    lemma_fundamental_div_mod(p, q);
    let k = p / q;
    assert(p == k * q) by (nonlinear_arith)
        requires
            p == q * (p / q) + p % q,
            p % q == 0,
            k == p / q;
    assert(l.0 * q <= p * big);
    assert(p * big <= u.0 * q);
    assert(l.0 <= k * big) by (nonlinear_arith)
        requires
            l.0 * q <= p * big,
            p == k * q,
            q > 0;
    assert(k * big <= u.0) by (nonlinear_arith)
        requires
            p * big <= u.0 * q,
            p == k * q,
            q > 0;
    assert(-u.0 <= (-k) * big) by (nonlinear_arith)
        requires
            k * big <= u.0;
    lemma_floor_at_most(l.0, k, big);
    lemma_floor_at_most(-u.0, -k, big);
    lemma_floor_at_least(l.0, -MAX_EXACT_INTEGER as int, big);
    lemma_floor_at_least(-u.0, -MAX_EXACT_INTEGER as int, big);
    let vals = split_allof_integer_candidates(s)->0;
    let i = k - view_floor(l);
    assert(vals[i] == integer_json(k));
    match n {
        JsonNumber::PosInt(w) => {
            assert(k == w as int);
        },
        JsonNumber::NegInt(w) => {
            assert(k == w as int);
        },
        JsonNumber::Float(_) => {
            assert(number_wf(n));
            assert(false);
        },
    }
    assert(json_eq(v, vals[i]));
}

} // verus!
