//! The order of IEEE-754 doubles read from their bit patterns, exactly:
//! every finite (or infinite) double is an integer multiple of 2^-1074, and
//! for doubles of one sign the order of the magnitudes follows the order of
//! the (exponent, fraction) fields.

use vstd::prelude::*;
use vstd::arithmetic::power2::{pow2, lemma_pow2_pos, lemma_pow2_adds, lemma_pow2_unfold, lemma_pow2_strictly_increases};
use vstd::arithmetic::div_mod::{lemma_fundamental_div_mod_converse_div, lemma_fundamental_div_mod_converse_mod,
    lemma_fundamental_div_mod, lemma_div_denominator, lemma_div_is_ordered};
use crate::json::{float_rational, float_exponent_field, float_fraction_field, float_negative};
use crate::semantics::{rat_le, rat_lt};

verus! {

/// Whether a bit pattern is a NaN.
pub open spec fn float_is_nan(bits: u64) -> bool {
    float_exponent_field(bits) == 0x7ff && float_fraction_field(bits) != 0
}

/// The magnitude of a double with exponent field `e` and fraction field `f`,
/// times 2^1074 (an integer).
pub open spec fn field_magnitude(e: int, f: int) -> int {
    if e == 0 {
        f
    } else {
        (f + 0x10_0000_0000_0000) * pow2((e - 1) as nat)
    }
}

/// The value of a double times 2^1074 (an integer).
pub open spec fn scaled_value(bits: u64) -> int {
    let m = field_magnitude(float_exponent_field(bits), float_fraction_field(bits));
    if float_negative(bits) { -m } else { m }
}

/// The magnitude grows with the exponent field, and with the fraction
/// field under one exponent.
pub proof fn lemma_field_magnitude_order(e1: int, f1: int, e2: int, f2: int)
    requires
        0 <= e1 <= 0x7ff,
        0 <= e2 <= 0x7ff,
        0 <= f1 < 0x10_0000_0000_0000,
        0 <= f2 < 0x10_0000_0000_0000,
        e1 < e2 || (e1 == e2 && f1 < f2),
    ensures
        field_magnitude(e1, f1) < field_magnitude(e2, f2),
{
    if e1 == e2 {
        if e1 > 0 {
            lemma_pow2_pos((e1 - 1) as nat);
            let p = pow2((e1 - 1) as nat) as int;
            assert((f1 + 0x10_0000_0000_0000) * p < (f2 + 0x10_0000_0000_0000) * p) by (nonlinear_arith)
                requires
                    f1 < f2,
                    p > 0;
        }
    } else {
        lemma_field_magnitude_step(e1, f1);
        lemma_field_magnitude_base_order(e1 + 1, e2);
        lemma_field_magnitude_fraction(e2, f2);
    }
}

/// The largest magnitude of one exponent lies below the smallest of the next.
proof fn lemma_field_magnitude_step(e: int, f: int)
    requires
        0 <= e < 0x7ff,
        0 <= f < 0x10_0000_0000_0000,
    ensures
        field_magnitude(e, f) < field_magnitude(e + 1, 0),
{
    if e == 0 {
        assert(pow2(0) == 1) by {
            vstd::arithmetic::power2::lemma2_to64();
        }
    } else {
        lemma_pow2_unfold(e as nat);
        lemma_pow2_pos((e - 1) as nat);
        let p = pow2((e - 1) as nat) as int;
        assert((f + 0x10_0000_0000_0000) * p < 0x10_0000_0000_0000 * (2 * p)) by (nonlinear_arith)
            requires
                f < 0x10_0000_0000_0000,
                p > 0;
    }
}

/// The smallest magnitudes grow with the exponent.
proof fn lemma_field_magnitude_base_order(e1: int, e2: int)
    requires
        0 <= e1 <= e2 <= 0x7ff,
    ensures
        field_magnitude(e1, 0) <= field_magnitude(e2, 0),
{
    if e1 > 0 && e1 < e2 {
        lemma_pow2_strictly_increases((e1 - 1) as nat, (e2 - 1) as nat);
    }
    if e2 > 0 {
        lemma_pow2_pos((e2 - 1) as nat);
    }
}

/// A magnitude is at least the smallest one of its exponent.
pub(crate) proof fn lemma_field_magnitude_fraction(e: int, f: int)
    requires
        0 <= e <= 0x7ff,
        0 <= f < 0x10_0000_0000_0000,
    ensures
        field_magnitude(e, 0) <= field_magnitude(e, f),
        field_magnitude(e, f) >= 0,
        field_magnitude(e, f) == 0 <==> (e == 0 && f == 0),
{
    if e > 0 {
        lemma_pow2_pos((e - 1) as nat);
        let p = pow2((e - 1) as nat) as int;
        assert(0x10_0000_0000_0000 * p <= (f + 0x10_0000_0000_0000) * p) by (nonlinear_arith)
            requires
                f >= 0,
                p > 0;
    }
}

/// The exact value of a double as a fraction agrees with its scaled value:
/// `num * 2^1074 == scaled * den`.
pub proof fn lemma_float_rational_scaled(bits: u64)
    ensures
        float_rational(bits).1 > 0,
        float_rational(bits).0 * pow2(1074) == scaled_value(bits) * float_rational(bits).1,
{
    let e = float_exponent_field(bits);
    let f = float_fraction_field(bits);
    let mantissa: int = if e == 0 { f } else { f + 0x10_0000_0000_0000 };
    let exp: int = if e == 0 { -1074 } else { e - 1075 };
    let signed: int = if float_negative(bits) { -mantissa } else { mantissa };
    let m = field_magnitude(e, f);
    assert(0 <= e < 0x800);
    if exp >= 0 {
        lemma_pow2_adds(exp as nat, 1074);
        assert((e - 1) as nat == (exp + 1074) as nat);
        let a = pow2(exp as nat) as int;
        let b = pow2(1074) as int;
        assert(m == mantissa * (a * b));
        assert((signed * a) * b == (if float_negative(bits) { -m } else { m }) * 1) by (nonlinear_arith)
            requires
                m == mantissa * (a * b),
                signed == mantissa || signed == -mantissa,
                signed == mantissa ==> !float_negative(bits),
                signed == -mantissa ==> float_negative(bits);
    } else {
        let d = pow2((-exp) as nat) as int;
        lemma_pow2_pos((-exp) as nat);
        if e == 0 {
            assert(m == mantissa);
            assert(signed * pow2(1074) == (if float_negative(bits) { -m } else { m }) * d);
        } else {
            lemma_pow2_adds((e - 1) as nat, (-exp) as nat);
            assert((e - 1) as nat + (-exp) as nat == 1074);
            let p = pow2((e - 1) as nat) as int;
            assert(m == mantissa * p);
            assert(signed * (p * d) == (if float_negative(bits) { -m } else { m }) * d) by (nonlinear_arith)
                requires
                    m == mantissa * p,
                    signed == mantissa || signed == -mantissa,
                    signed == mantissa ==> !float_negative(bits),
                    signed == -mantissa ==> float_negative(bits);
        }
    }
}

/// Comparing a double with a fraction `(p, q)`, `q > 0`, is comparing the
/// double's scaled value with `p * 2^1074 / q`.
pub proof fn lemma_float_vs_rational(a: u64, x: (int, int))
    requires
        x.1 > 0,
    ensures
        rat_lt(float_rational(a), x) <==> scaled_value(a) * x.1 < x.0 * pow2(1074),
        rat_le(float_rational(a), x) <==> scaled_value(a) * x.1 <= x.0 * pow2(1074),
        rat_lt(x, float_rational(a)) <==> x.0 * pow2(1074) < scaled_value(a) * x.1,
        rat_le(x, float_rational(a)) <==> x.0 * pow2(1074) <= scaled_value(a) * x.1,
{
    lemma_float_rational_scaled(a);
    lemma_pow2_pos(1074);
    let n = float_rational(a).0;
    let d = float_rational(a).1;
    let s = scaled_value(a);
    let big = pow2(1074) as int;
    let (p, q) = x;
    assert((n * q < p * d) <==> (s * q < p * big)) by (nonlinear_arith)
        requires
            n * big == s * d,
            big > 0,
            d > 0,
            q > 0;
    assert((n * q <= p * d) <==> (s * q <= p * big)) by (nonlinear_arith)
        requires
            n * big == s * d,
            big > 0,
            d > 0,
            q > 0;
    assert((p * d < n * q) <==> (p * big < s * q)) by (nonlinear_arith)
        requires
            n * big == s * d,
            big > 0,
            d > 0,
            q > 0;
    assert((p * d <= n * q) <==> (p * big <= s * q)) by (nonlinear_arith)
        requires
            n * big == s * d,
            big > 0,
            d > 0,
            q > 0;
}

/// A bit pattern is its sign bit, exponent field and fraction field put
/// together.
proof fn lemma_bits_fields(bits: u64)
    ensures
        bits as int == (if float_negative(bits) { 0x8000_0000_0000_0000int } else { 0int })
            + float_exponent_field(bits) * 0x10_0000_0000_0000 + float_fraction_field(bits),
{
    let x = bits as int;
    lemma_fundamental_div_mod(x, 0x10_0000_0000_0000);
    let hi = x / 0x10_0000_0000_0000;
    lemma_fundamental_div_mod(hi, 0x800);
    lemma_div_denominator(x, 0x10_0000_0000_0000, 0x800);
    assert(0x10_0000_0000_0000int * 0x800 == 0x8000_0000_0000_0000int);
    let s = hi / 0x800;
    assert(x < 0x1_0000_0000_0000_0000int);
    assert(0 <= s <= 1) by {
        lemma_div_is_ordered(x, 0xFFFF_FFFF_FFFF_FFFF, 0x8000_0000_0000_0000);
    }
    assert(s == 1 <==> x >= 0x8000_0000_0000_0000) by {
        if x >= 0x8000_0000_0000_0000 {
            lemma_div_is_ordered(0x8000_0000_0000_0000, x, 0x8000_0000_0000_0000);
        } else {
            vstd::arithmetic::div_mod::lemma_basic_div(x, 0x8000_0000_0000_0000);
        }
    }
}

/// Two doubles with one nonzero value have one bit pattern: the value
/// determines the sign, the exponent field and the fraction field.
pub proof fn lemma_scaled_value_determines_bits(a: u64, b: u64)
    requires
        scaled_value(a) == scaled_value(b),
        scaled_value(a) != 0,
    ensures
        a == b,
{
    let ea = float_exponent_field(a);
    let fa = float_fraction_field(a);
    let eb = float_exponent_field(b);
    let fb = float_fraction_field(b);
    lemma_field_magnitude_fraction(ea, fa);
    lemma_field_magnitude_fraction(eb, fb);
    if ea < eb || (ea == eb && fa < fb) {
        lemma_field_magnitude_order(ea, fa, eb, fb);
    }
    if eb < ea || (ea == eb && fb < fa) {
        lemma_field_magnitude_order(eb, fb, ea, fa);
    }
    lemma_bits_fields(a);
    lemma_bits_fields(b);
}

/// The outcome of comparing two doubles: `None` with a NaN, otherwise the
/// sign (`-1`, `0`, `1`) of the difference of their values.
pub open spec fn float_order(a: u64, b: u64) -> Option<int> {
    if float_is_nan(a) || float_is_nan(b) {
        None
    } else if scaled_value(a) < scaled_value(b) {
        Some(-1)
    } else if scaled_value(a) == scaled_value(b) {
        Some(0)
    } else {
        Some(1)
    }
}

/// Compares two doubles given by their bit patterns, as `f64::partial_cmp`
/// does: `None` when either is a NaN, otherwise `-1`, `0` or `1` as the
/// first is below, equal to or above the second (`-0.0` equals `0.0`).
pub fn compare_float_bits(a: u64, b: u64) -> (r: Option<i8>)
    ensures
        r is None <==> (float_is_nan(a) || float_is_nan(b)),
        r is None <==> float_order(a, b) is None,
        r matches Some(c) ==> float_order(a, b) == Some(c as int),
        r matches Some(c) ==> (c == 0 <==> scaled_value(a) == scaled_value(b))
            && (c == -1 <==> scaled_value(a) < scaled_value(b))
            && (c == 1 <==> scaled_value(a) > scaled_value(b)),
{
    let ea = (a / 0x10_0000_0000_0000) % 0x800;
    let fa = a % 0x10_0000_0000_0000;
    let eb = (b / 0x10_0000_0000_0000) % 0x800;
    let fb = b % 0x10_0000_0000_0000;
    if (ea == 0x7ff && fa != 0) || (eb == 0x7ff && fb != 0) {
        return None;
    }
    let na = a >= 0x8000_0000_0000_0000;
    let nb = b >= 0x8000_0000_0000_0000;
    let ghost ma = field_magnitude(ea as int, fa as int);
    let ghost mb = field_magnitude(eb as int, fb as int);
    proof {
        lemma_field_magnitude_fraction(ea as int, fa as int);
        lemma_field_magnitude_fraction(eb as int, fb as int);
        if ea < eb || (ea == eb && fa < fb) {
            lemma_field_magnitude_order(ea as int, fa as int, eb as int, fb as int);
        }
        if eb < ea || (ea == eb && fb < fa) {
            lemma_field_magnitude_order(eb as int, fb as int, ea as int, fa as int);
        }
    }
    let magnitude_order: i8 = if ea < eb || (ea == eb && fa < fb) {
        -1
    } else if ea == eb && fa == fb {
        0
    } else {
        1
    };
    let a_zero = ea == 0 && fa == 0;
    let b_zero = eb == 0 && fb == 0;
    if a_zero && b_zero {
        return Some(0);
    }
    let r: i8 = match (na, nb) {
        (false, false) => magnitude_order,
        (true, true) => -magnitude_order,
        (false, true) => 1,
        (true, false) => -1,
    };
    Some(r)
}

/// The largest integer every smaller integer of which a double holds exactly.
pub const MAX_EXACT_INTEGER: i64 = 9_007_199_254_740_991;

/// The bit pattern of the double equal to `v`, for `|v|` below 2^53.
pub fn small_integer_bits(v: i64) -> (bits: u64)
    requires
        -MAX_EXACT_INTEGER <= v <= MAX_EXACT_INTEGER,
    ensures
        !float_is_nan(bits),
        scaled_value(bits) == v * pow2(1074),
{
    if v == 0 {
        proof {
            assert(float_exponent_field(0u64) == 0 && float_fraction_field(0u64) == 0);
        }
        return 0;
    }
    let negative = v < 0;
    let magnitude: u64 = if negative { (-v) as u64 } else { v as u64 };
    let mut norm: u64 = magnitude;
    let mut shift: u64 = 0;
    proof {
        assert(pow2(0) == 1) by {
            vstd::arithmetic::power2::lemma2_to64();
        }
    }
    while norm < 0x10_0000_0000_0000
        invariant
            1 <= magnitude <= MAX_EXACT_INTEGER,
            norm as int == magnitude as int * pow2(shift as nat),
            1 <= norm < 0x20_0000_0000_0000,
            shift <= 52,
        decreases 52 - shift,
    {
        proof {
            vstd::arithmetic::power2::lemma2_to64_rest();
            lemma_pow2_pos(shift as nat);
            assert(pow2(shift as nat) <= norm) by (nonlinear_arith)
                requires
                    norm as int == magnitude as int * pow2(shift as nat),
                    magnitude >= 1,
                    pow2(shift as nat) > 0;
            if shift >= 52 {
                if shift > 52 {
                    lemma_pow2_strictly_increases(52, shift as nat);
                }
                assert(false);
            }
            lemma_pow2_unfold((shift + 1) as nat);
            let p = pow2(shift as nat) as int;
            assert(2 * (magnitude * p) == magnitude * (2 * p)) by (nonlinear_arith);
        }
        norm = norm * 2;
        shift = shift + 1;
    }
    let e: u64 = 1075 - shift;
    let fraction: u64 = norm - 0x10_0000_0000_0000;
    let sign: u64 = if negative { 0x8000_0000_0000_0000 } else { 0 };
    let bits: u64 = sign + e * 0x10_0000_0000_0000 + fraction;
    proof {
        let s: int = if negative { 1 } else { 0 };
        assert(bits == (s * 0x800 + e) * 0x10_0000_0000_0000 + fraction);
        lemma_fundamental_div_mod_converse_div(bits as int, 0x10_0000_0000_0000, s * 0x800 + e, fraction as int);
        lemma_fundamental_div_mod_converse_mod(bits as int, 0x10_0000_0000_0000, s * 0x800 + e, fraction as int);
        lemma_fundamental_div_mod_converse_mod(s * 0x800 + e, 0x800, s, e as int);
        assert(float_exponent_field(bits) == e);
        assert(float_fraction_field(bits) == fraction);
        assert(float_negative(bits) == negative);
        lemma_pow2_adds(shift as nat, (e - 1) as nat);
        assert(shift as nat + (e - 1) as nat == 1074);
        let p = pow2(shift as nat) as int;
        let q = pow2((e - 1) as nat) as int;
        assert(field_magnitude(e as int, fraction as int) == norm * q);
        assert(norm * q == magnitude * (p * q)) by (nonlinear_arith)
            requires
                norm == magnitude * p;
        assert(p * q == pow2(1074));
        let mag = magnitude as int * pow2(1074);
        assert(field_magnitude(e as int, fraction as int) == mag);
        if negative {
            assert(v == -(magnitude as int));
            assert(scaled_value(bits) == -mag);
            assert(-mag == v * pow2(1074)) by (nonlinear_arith)
                requires
                    mag == magnitude as int * pow2(1074),
                    v == -(magnitude as int);
        } else {
            assert(v == magnitude as int);
            assert(scaled_value(bits) == mag);
        }
    }
    bits
}

/// The integer a double holds, when it is finite, has no fractional part and
/// lies within `±2^53`.
pub open spec fn integral_value(bits: u64) -> Option<int> {
    let (p, q) = float_rational(bits);
    if float_exponent_field(bits) != 0x7ff && p % q == 0 && -0x20_0000_0000_0000 <= p / q <= 0x20_0000_0000_0000 {
        Some(p / q)
    } else {
        None
    }
}

/// A multiple of a positive `q`, negated, is still one, and the quotient is
/// negated with it.
proof fn lemma_negated_multiple(x: int, q: int)
    requires
        q > 0,
    ensures
        (-x) % q == 0 <==> x % q == 0,
        x % q == 0 ==> (-x) / q == -(x / q),
{
    lemma_fundamental_div_mod(x, q);
    lemma_fundamental_div_mod(-x, q);
    if x % q == 0 {
        let t = x / q;
        assert(-x == q * (-t) + 0) by (nonlinear_arith)
            requires
                x == q * t + 0;
        lemma_fundamental_div_mod_converse_mod(-x, q, -t, 0);
        lemma_fundamental_div_mod_converse_div(-x, q, -t, 0);
    }
    if (-x) % q == 0 {
        let t = (-x) / q;
        assert(x == q * (-t) + 0) by (nonlinear_arith)
            requires
                -x == q * t + 0;
        lemma_fundamental_div_mod_converse_mod(x, q, -t, 0);
    }
}

/// The integer a double holds (see `integral_value`): the conversion of a
/// finite integral `f64` bound of magnitude at most 2^53 to `i64`.
pub fn finite_bound_to_i64(bits: u64) -> (r: Option<i64>)
    ensures
        match r {
            Some(v) => integral_value(bits) == Some(v as int),
            None => integral_value(bits) is None,
        },
{
    let e = (bits / 0x10_0000_0000_0000) % 0x800;
    let f = bits % 0x10_0000_0000_0000;
    let negative = bits >= 0x8000_0000_0000_0000;
    proof {
        vstd::arithmetic::power2::lemma2_to64();
        vstd::arithmetic::power2::lemma2_to64_rest();
        assert(float_exponent_field(bits) == e && float_fraction_field(bits) == f && float_negative(bits) == negative);
    }
    if e == 0x7ff {
        return None;
    }
    if e == 0 {
        proof {
            lemma_pow2_strictly_increases(52, 1074);
            let q = pow2(1074) as int;
            let sf: int = if negative { -(f as int) } else { f as int };
            assert(float_rational(bits) == (sf, q));
            if f != 0 {
                vstd::arithmetic::div_mod::lemma_small_mod(f as nat, q as nat);
                lemma_negated_multiple(f as int, q);
            } else {
                assert(sf == 0);
                vstd::arithmetic::div_mod::lemma_small_mod(0, q as nat);
                vstd::arithmetic::div_mod::lemma_basic_div(0, q);
            }
        }
        return if f == 0 { Some(0) } else { None };
    }
    let m: u64 = f + 0x10_0000_0000_0000;
    if e >= 1075 {
        let k = e - 1075;
        proof {
            let sm: int = if negative { -(m as int) } else { m as int };
            assert(float_rational(bits) == (sm * pow2(k as nat), 1int));
            if k >= 2 {
                if k > 2 {
                    lemma_pow2_strictly_increases(2, k as nat);
                }
                let p = pow2(k as nat) as int;
                assert(m as int * p >= 0x10_0000_0000_0000 * 4) by (nonlinear_arith)
                    requires
                        m >= 0x10_0000_0000_0000,
                        p >= 4;
                assert(sm * p > 0x20_0000_0000_0000 || sm * p < -0x20_0000_0000_0000) by (nonlinear_arith)
                    requires
                        m as int * p >= 0x40_0000_0000_0000,
                        sm == m || sm == -(m as int);
            }
        }
        if k == 0 {
            proof {
                let sm: int = if negative { -(m as int) } else { m as int };
                assert(sm * pow2(0) == sm);
                lemma_fundamental_div_mod_converse_mod(sm, 1, sm, 0);
                lemma_fundamental_div_mod_converse_div(sm, 1, sm, 0);
            }
            return Some(if negative { -(m as i64) } else { m as i64 });
        }
        if k == 1 && f == 0 {
            proof {
                let sm: int = if negative { -(m as int) } else { m as int };
                let v: int = sm * 2;
                assert(m == 0x10_0000_0000_0000);
                if negative {
                    assert(sm == -0x10_0000_0000_0000int);
                    assert(v == -0x20_0000_0000_0000int) by (nonlinear_arith)
                        requires
                            v == sm * 2,
                            sm == -0x10_0000_0000_0000int;
                } else {
                    assert(sm == 0x10_0000_0000_0000int);
                    assert(v == 0x20_0000_0000_0000int) by (nonlinear_arith)
                        requires
                            v == sm * 2,
                            sm == 0x10_0000_0000_0000int;
                }
                assert(sm * pow2(1) == v);
                lemma_fundamental_div_mod_converse_mod(v, 1, v, 0);
                lemma_fundamental_div_mod_converse_div(v, 1, v, 0);
                assert(float_rational(bits) == (v, 1int));
                assert(integral_value(bits) == Some(v));
            }
            return Some(if negative { -0x20_0000_0000_0000i64 } else { 0x20_0000_0000_0000i64 });
        }
        proof {
            if k == 1 {
                let sm: int = if negative { -(m as int) } else { m as int };
                assert(f != 0);
                assert(m > 0x10_0000_0000_0000);
                assert(sm * pow2(1) == sm * 2);
                if negative {
                    assert(sm < -0x10_0000_0000_0000int);
                } else {
                    assert(sm > 0x10_0000_0000_0000int);
                }
                assert(sm * 2 > 0x20_0000_0000_0000int || sm * 2 < -0x20_0000_0000_0000int) by (nonlinear_arith)
                    requires
                        sm < -0x10_0000_0000_0000int || sm > 0x10_0000_0000_0000int;
            }
        }
        return None;
    }
    let k: u64 = 1075 - e;
    proof {
        let sm: int = if negative { -(m as int) } else { m as int };
        assert(float_rational(bits) == (sm, pow2(k as nat) as int));
        lemma_pow2_pos(k as nat);
    }
    if k >= 53 {
        proof {
            if k > 53 {
                lemma_pow2_strictly_increases(53, k as nat);
            }
            vstd::arithmetic::div_mod::lemma_small_mod(m as nat, pow2(k as nat));
            lemma_negated_multiple(m as int, pow2(k as nat) as int);
        }
        return None;
    }
    let mut d: u64 = 1;
    let mut i: u64 = 0;
    while i < k
        invariant
            i <= k <= 52,
            d as int == pow2(i as nat),
        decreases k - i,
    {
        proof {
            lemma_pow2_unfold((i + 1) as nat);
            vstd::arithmetic::power2::lemma2_to64_rest();
            if i < 51 {
                lemma_pow2_strictly_increases(i as nat, 51);
            }
        }
        d = d * 2;
        i = i + 1;
    }
    proof {
        lemma_negated_multiple(m as int, d as int);
        lemma_fundamental_div_mod(m as int, d as int);
    }
    if m % d != 0 {
        return None;
    }
    let value = m / d;
    proof {
        vstd::arithmetic::div_mod::lemma_div_is_ordered(m as int, 0x20_0000_0000_0000, d as int);
        vstd::arithmetic::div_mod::lemma_div_by_self(d as int);
    }
    Some(if negative { -(value as i64) } else { value as i64 })
}

} // verus!
