//! Universal unions over numbers: an `anyOf` whose arms cover every value
//! by splitting the numbers, either into "not an integer" plus integer ranges
//! that together hold every integer, or into number ranges that together
//! hold every number while other arms take the other JSON types wholesale.

use vstd::prelude::*;
use crate::json::{JsonValue, JsonNumber, number_is_integral};
use crate::schema::{SchemaNode, SchemaNodeKind, IntegerBounds, IntegerMultipleOf, NumberBound, NumberBounds};
use crate::json::{float_rational, float_exponent_field, float_fraction_field};
use crate::semantics::{rat_le, rat_lt};
use crate::floats::{float_is_nan, float_order, scaled_value, field_magnitude, lemma_field_magnitude_order,
    lemma_field_magnitude_fraction, lemma_float_vs_rational, compare_float_bits};
use vstd::arithmetic::power2::{pow2, lemma_pow2_pos};
use crate::semantics::{accepts, integer_value, is_multiple_of_float};
use crate::partitions::{union_accepts, other_types_covered, other_types_covered_exec};
use crate::json::{number_rational, json_type_bit, JSON_TYPE_NUMBER};
use crate::bits::is_type_bit;
use crate::types::{obviously_accepts_type, lemma_type_facts_sound};
use crate::covers::some_branch_obviously_accepts;
use crate::numeric::lemma_number_denominator;

verus! {

/// Whether an integer `multipleOf` constrains nothing: absent, or with
/// integer divisor 1.
pub open spec fn divisor_is_one(m: Option<IntegerMultipleOf>) -> bool {
    match m {
        None => true,
        Some(x) => x.divisor == Some(1i128),
    }
}

/// The bounds of a plain integer schema (no enumeration, divisor one).
pub open spec fn plain_integer_bounds(s: SchemaNode) -> Option<IntegerBounds> {
    match s.kind {
        SchemaNodeKind::Integer { bounds, multiple_of, enumeration } =>
            if enumeration is None && divisor_is_one(multiple_of) { Some(bounds) } else { None },
        _ => None,
    }
}

/// Whether `s` is a plain integer schema without bounds.
pub open spec fn is_unbounded_plain_integer(s: SchemaNode) -> bool {
    plain_integer_bounds(s) matches Some(b) && b.lower is None && b.upper is None
}

/// Whether `b` is the bounds of a plain integer arm reached from `s`
/// through nested `anyOf`s.
pub open spec fn integer_interval_of(s: SchemaNode, b: IntegerBounds) -> bool
    decreases s,
{
    match s.kind {
        SchemaNodeKind::AnyOf(children) => exists|i: int| 0 <= i < children@.len() && integer_interval_of(#[trigger] children@[i], b),
        _ => plain_integer_bounds(s) == Some(b),
    }
}

/// Whether a "not an integer" arm (`not` of an unbounded plain integer
/// schema) is reached from `s` through nested `anyOf`s.
pub open spec fn has_noninteger_arm(s: SchemaNode) -> bool
    decreases s,
{
    match s.kind {
        SchemaNodeKind::AnyOf(children) => exists|i: int| 0 <= i < children@.len() && has_noninteger_arm(#[trigger] children@[i]),
        SchemaNodeKind::Not(inner) => is_unbounded_plain_integer(*inner),
        _ => false,
    }
}

/// Whether the integer `k` lies in inclusive integer bounds.
pub open spec fn in_integer_bounds(b: IntegerBounds, k: int) -> bool {
    (b.lower matches Some(l) ==> l <= k) && (b.upper matches Some(u) ==> k <= u)
}

/// Whether some bounds of the list hold `k`.
pub open spec fn covered_integer(intervals: Seq<IntegerBounds>, k: int) -> bool {
    exists|i: int| 0 <= i < intervals.len() && in_integer_bounds(#[trigger] intervals[i], k)
}

/// Whether a plain integer arm of some branch holds `k`.
pub open spec fn integer_covered(branches: Seq<SchemaNode>, k: int) -> bool {
    exists|i: int, b: IntegerBounds| 0 <= i < branches.len() && #[trigger] integer_interval_of(branches[i], b)
        && in_integer_bounds(b, k)
}

/// The test `any_of_integer_partition_cover_is_universal` performs.
pub open spec fn integer_partition_cover(branches: Seq<SchemaNode>) -> bool {
    &&& exists|i: int| 0 <= i < branches.len() && #[trigger] has_noninteger_arm(branches[i])
    &&& forall|k: int| #[trigger] integer_covered(branches, k)
}

/// A plain integer arm accepts every integer in its bounds.
proof fn lemma_integer_interval_accepts(s: SchemaNode, b: IntegerBounds, n: JsonNumber, rx: spec_fn(Seq<char>, Seq<char>) -> bool)
    requires
        integer_interval_of(s, b),
        number_is_integral(n),
        in_integer_bounds(b, integer_value(n)),
    ensures
        accepts(s, JsonValue::Number(n), rx),
    decreases s,
{
    match s.kind {
        SchemaNodeKind::AnyOf(children) => {
            let i = choose|i: int| 0 <= i < children@.len() && integer_interval_of(#[trigger] children@[i], b);
            lemma_integer_interval_accepts(children@[i], b, n, rx);
        },
        SchemaNodeKind::Integer { multiple_of, .. } => {
            match multiple_of {
                Some(m) => {
                    assert(integer_value(n) % 1 == 0);
                },
                None => {},
            }
        },
        _ => {},
    }
}

/// A "not an integer" arm accepts every value that is not an integral
/// number.
proof fn lemma_noninteger_arm_accepts(s: SchemaNode, v: JsonValue, rx: spec_fn(Seq<char>, Seq<char>) -> bool)
    requires
        has_noninteger_arm(s),
        !(v is Number && number_is_integral(v->Number_0)),
    ensures
        accepts(s, v, rx),
    decreases s,
{
    match s.kind {
        SchemaNodeKind::AnyOf(children) => {
            let i = choose|i: int| 0 <= i < children@.len() && has_noninteger_arm(#[trigger] children@[i]);
            lemma_noninteger_arm_accepts(children@[i], v, rx);
            assert(accepts(children@[i], v, rx));
        },
        SchemaNodeKind::Not(inner) => {
            assert(!accepts(*inner, v, rx));
        },
        _ => {},
    }
}

/// Whether an integer `multipleOf` constrains nothing (see `divisor_is_one`).
fn integer_divisor_is_one(multiple_of: &Option<IntegerMultipleOf>) -> (r: bool)
    ensures
        r == divisor_is_one(*multiple_of),
{
    match multiple_of {
        None => true,
        Some(m) => match m.integer_divisor() {
            None => false,
            Some(divisor) => divisor == 1,
        },
    }
}

/// The bounds of `schema` when it is a plain integer schema.
fn plain_integer_bounds_exec(schema: &SchemaNode) -> (r: Option<IntegerBounds>)
    ensures
        r == plain_integer_bounds(*schema),
{
    match &schema.kind {
        SchemaNodeKind::Integer { bounds, multiple_of, enumeration } => {
            if enumeration.is_none() && integer_divisor_is_one(multiple_of) {
                Some(*bounds)
            } else {
                None
            }
        },
        _ => None,
    }
}

/// Whether `schema` is a plain integer schema without bounds.
fn is_unbounded_plain_integer_exec(schema: &SchemaNode) -> (r: bool)
    ensures
        r == is_unbounded_plain_integer(*schema),
{
    match plain_integer_bounds_exec(schema) {
        Some(bounds) => bounds.lower.is_none() && bounds.upper.is_none(),
        None => false,
    }
}

/// Sets `has_noninteger` when `schema` reaches a "not an integer" arm, and
/// appends the bounds of the plain integer arms it reaches to `out`.
fn collect_integer_arms(schema: &SchemaNode, has_noninteger: &mut bool, out: &mut Vec<IntegerBounds>)
    ensures
        *final(has_noninteger) == (*old(has_noninteger) || has_noninteger_arm(*schema)),
        final(out)@.len() >= old(out)@.len(),
        forall|k: int| 0 <= k < old(out)@.len() ==> final(out)@[k] == old(out)@[k],
        forall|k: int| old(out)@.len() <= k < final(out)@.len() ==> integer_interval_of(*schema, #[trigger] final(out)@[k]),
        forall|b: IntegerBounds| #[trigger] integer_interval_of(*schema, b)
            ==> exists|k: int| old(out)@.len() <= k < final(out)@.len() && final(out)@[k] == b,
    decreases *schema,
{
    let ghost start = out@;
    let ghost flag = *has_noninteger;
    match &schema.kind {
        SchemaNodeKind::AnyOf(children) => {
            let mut i: usize = 0;
            while i < children.len()
                invariant
                    i <= children@.len(),
                    schema.kind == SchemaNodeKind::AnyOf(*children),
                    *has_noninteger == (flag || exists|j: int| 0 <= j < i && has_noninteger_arm(#[trigger] children@[j])),
                    out@.len() >= start.len(),
                    forall|k: int| 0 <= k < start.len() ==> out@[k] == start[k],
                    forall|k: int| #![trigger out@[k]] start.len() <= k < out@.len() ==> exists|j: int| 0 <= j < i
                        && integer_interval_of(#[trigger] children@[j], out@[k]),
                    forall|j: int, b: IntegerBounds| 0 <= j < i && #[trigger] integer_interval_of(children@[j], b)
                        ==> exists|k: int| start.len() <= k < out@.len() && out@[k] == b,
                decreases children@.len() - i,
            {
                proof {
                    assert(decreases_to!(*schema => schema.kind));
                    assert(decreases_to!(schema.kind => schema.kind->AnyOf_0));
                    assert(decreases_to!(*children => children[i as int]));
                }
                let ghost before = out@;
                let ghost before_flag = *has_noninteger;
                collect_integer_arms(&children[i], has_noninteger, out);
                proof {
                    assert forall|k: int| #![trigger out@[k]] start.len() <= k < out@.len() implies exists|j: int| 0 <= j < i + 1
                        && integer_interval_of(#[trigger] children@[j], out@[k]) by {
                        if k < before.len() {
                            assert(out@[k] == before[k]);
                        } else {
                            assert(integer_interval_of(children@[i as int], out@[k]));
                        }
                    }
                    assert forall|j: int, b: IntegerBounds| 0 <= j < i + 1 && #[trigger] integer_interval_of(children@[j], b)
                        implies exists|k: int| start.len() <= k < out@.len() && out@[k] == b by {
                        if j < i {
                            let k = choose|k: int| start.len() <= k < before.len() && before[k] == b;
                            assert(out@[k] == before[k]);
                        }
                    }
                    if has_noninteger_arm(children@[i as int]) {
                        assert(exists|j: int| 0 <= j < i + 1 && has_noninteger_arm(#[trigger] children@[j]));
                    }
                    if exists|j: int| 0 <= j < i + 1 && has_noninteger_arm(#[trigger] children@[j]) {
                        let j = choose|j: int| 0 <= j < i + 1 && has_noninteger_arm(#[trigger] children@[j]);
                        if j < i {
                            assert(before_flag);
                        }
                    }
                }
                i = i + 1;
            }
            proof {
                assert(schema.kind->AnyOf_0 == *children);
                assert forall|k: int| start.len() <= k < out@.len() implies integer_interval_of(*schema, #[trigger] out@[k]) by {
                    let j = choose|j: int| 0 <= j < children@.len() && integer_interval_of(#[trigger] children@[j], out@[k]);
                    assert(integer_interval_of(schema.kind->AnyOf_0@[j], out@[k]));
                }
                assert forall|b: IntegerBounds| #[trigger] integer_interval_of(*schema, b)
                    implies exists|k: int| start.len() <= k < out@.len() && out@[k] == b by {
                    let j = choose|j: int| 0 <= j < schema.kind->AnyOf_0@.len() && integer_interval_of(#[trigger] schema.kind->AnyOf_0@[j], b);
                    assert(integer_interval_of(children@[j], b));
                }
                if has_noninteger_arm(*schema) {
                    let j = choose|j: int| 0 <= j < schema.kind->AnyOf_0@.len() && has_noninteger_arm(#[trigger] schema.kind->AnyOf_0@[j]);
                    assert(has_noninteger_arm(children@[j]));
                }
            }
        },
        SchemaNodeKind::Not(inner) => {
            if is_unbounded_plain_integer_exec(inner) {
                *has_noninteger = true;
            }
        },
        _ => {
            match plain_integer_bounds_exec(schema) {
                Some(bounds) => {
                    out.push(bounds);
                    proof {
                        assert(out@[start.len() as int] == bounds);
                    }
                },
                None => {},
            }
        },
    }
}

/// Whether the inclusive integer bounds together hold every integer.
pub fn integer_bounds_cover_all(intervals: &Vec<IntegerBounds>) -> (r: bool)
    ensures
        r == (forall|k: int| #[trigger] covered_integer(intervals@, k)),
{
    let mut reach: Option<i64> = None;
    let mut i: usize = 0;
    while i < intervals.len()
        invariant
            i <= intervals@.len(),
            forall|k: int| 0 <= k < i && (#[trigger] intervals@[k]).lower is None
                ==> intervals@[k].upper is Some && reach is Some && intervals@[k].upper->0 <= reach->0,
            reach matches Some(r) ==> forall|k: int| k <= r ==> covered_integer(intervals@, k),
            reach is None ==> forall|k: int| 0 <= k < i ==> (#[trigger] intervals@[k]).lower is Some,
        decreases intervals@.len() - i,
    {
        let bounds = intervals[i];
        if bounds.lower.is_none() {
            match bounds.upper {
                None => {
                    assert forall|k: int| #[trigger] covered_integer(intervals@, k) by {
                        assert(in_integer_bounds(intervals@[i as int], k));
                    }
                    return true;
                },
                Some(upper) => {
                    assert forall|k: int| k <= upper implies covered_integer(intervals@, k) by {
                        assert(in_integer_bounds(intervals@[i as int], k));
                    }
                    reach = Some(match reach {
                        Some(old) => if old >= upper { old } else { upper },
                        None => upper,
                    });
                },
            }
        }
        i = i + 1;
    }
    let mut reach = match reach {
        Some(r) => r,
        None => {
            assert(!covered_integer(intervals@, i64::MIN - 1));
            return false;
        },
    };
    loop
        invariant
            forall|k: int| k <= reach ==> covered_integer(intervals@, k),
            forall|k: int| 0 <= k < intervals@.len() && (#[trigger] intervals@[k]).lower is None
                ==> intervals@[k].upper is Some && intervals@[k].upper->0 <= reach,
        decreases i64::MAX - reach,
    {
        let mut advanced = false;
        let ghost start = reach;
        let mut j: usize = 0;
        while j < intervals.len()
            invariant
                j <= intervals@.len(),
                start <= reach,
                forall|k: int| k <= reach ==> covered_integer(intervals@, k),
                forall|k: int| 0 <= k < intervals@.len() && (#[trigger] intervals@[k]).lower is None
                    ==> intervals@[k].upper is Some && intervals@[k].upper->0 <= reach,
                advanced ==> start < reach,
                !advanced ==> reach == start,
                !advanced ==> forall|k: int| 0 <= k < j && (#[trigger] intervals@[k]).lower is Some
                    ==> intervals@[k].lower->0 > reach + 1 || (intervals@[k].upper matches Some(m) && m <= reach),
            decreases intervals@.len() - j,
        {
            let bounds = intervals[j];
            match bounds.lower {
                None => {},
                Some(lower) => {
                    if (lower as i128) <= (reach as i128) + 1 {
                        match bounds.upper {
                            None => {
                                assert forall|k: int| #[trigger] covered_integer(intervals@, k) by {
                                    if k > reach {
                                        assert(in_integer_bounds(intervals@[j as int], k));
                                    }
                                }
                                return true;
                            },
                            Some(upper) => {
                                if upper > reach {
                                    assert forall|k: int| k <= upper implies covered_integer(intervals@, k) by {
                                        if k > reach {
                                            assert(in_integer_bounds(intervals@[j as int], k));
                                        }
                                    }
                                    reach = upper;
                                    advanced = true;
                                }
                            },
                        }
                    }
                },
            }
            j = j + 1;
        }
        if !advanced {
            assert(!covered_integer(intervals@, reach + 1));
            return false;
        }
    }
}

/// Whether an `anyOf` of `branches` accepts every value by splitting the
/// numbers: some arm is `not` of an unbounded plain integer schema (taking
/// every non-number and every fractional number), and the plain integer
/// arms (no enumeration, `multipleOf` absent or 1) together hold every
/// integer. Arms are read through nested `anyOf`s.
pub fn any_of_integer_partition_cover_is_universal(branches: &[SchemaNode]) -> (r: bool)
    ensures
        r == integer_partition_cover(branches@),
        r ==> forall|v: JsonValue, rx: spec_fn(Seq<char>, Seq<char>) -> bool| #[trigger] union_accepts(branches@, v, rx),
{
    let mut has_noninteger = false;
    let mut intervals: Vec<IntegerBounds> = Vec::new();
    let mut i: usize = 0;
    while i < branches.len()
        invariant
            i <= branches@.len(),
            has_noninteger == exists|j: int| 0 <= j < i && #[trigger] has_noninteger_arm(branches@[j]),
            forall|k: int| #![trigger intervals@[k]] 0 <= k < intervals@.len() ==> exists|j: int| 0 <= j < i
                && integer_interval_of(#[trigger] branches@[j], intervals@[k]),
            forall|j: int, b: IntegerBounds| 0 <= j < i && #[trigger] integer_interval_of(branches@[j], b)
                ==> exists|k: int| 0 <= k < intervals@.len() && intervals@[k] == b,
        decreases branches@.len() - i,
    {
        let ghost before = intervals@;
        let ghost before_flag = has_noninteger;
        collect_integer_arms(&branches[i], &mut has_noninteger, &mut intervals);
        proof {
            assert forall|k: int| #![trigger intervals@[k]] 0 <= k < intervals@.len() implies exists|j: int| 0 <= j < i + 1
                && integer_interval_of(#[trigger] branches@[j], intervals@[k]) by {
                if k < before.len() {
                    assert(intervals@[k] == before[k]);
                } else {
                    assert(integer_interval_of(branches@[i as int], intervals@[k]));
                }
            }
            assert forall|j: int, b: IntegerBounds| 0 <= j < i + 1 && #[trigger] integer_interval_of(branches@[j], b)
                implies exists|k: int| 0 <= k < intervals@.len() && intervals@[k] == b by {
                if j < i {
                    let k = choose|k: int| 0 <= k < before.len() && before[k] == b;
                    assert(intervals@[k] == before[k]);
                }
            }
            if has_noninteger_arm(branches@[i as int]) {
                assert(exists|j: int| 0 <= j < i + 1 && #[trigger] has_noninteger_arm(branches@[j]));
            }
            if exists|j: int| 0 <= j < i + 1 && #[trigger] has_noninteger_arm(branches@[j]) {
                let j = choose|j: int| 0 <= j < i + 1 && #[trigger] has_noninteger_arm(branches@[j]);
                if j < i {
                    assert(before_flag);
                }
            }
        }
        i = i + 1;
    }
    if !has_noninteger {
        return false;
    }
    let r = integer_bounds_cover_all(&intervals);
    proof {
        assert forall|k: int| #![trigger covered_integer(intervals@, k)] #![trigger integer_covered(branches@, k)]
            covered_integer(intervals@, k) <==> integer_covered(branches@, k) by {
            if covered_integer(intervals@, k) {
                let m = choose|m: int| 0 <= m < intervals@.len() && in_integer_bounds(#[trigger] intervals@[m], k);
                let j = choose|j: int| 0 <= j < branches@.len() && integer_interval_of(#[trigger] branches@[j], intervals@[m]);
                assert(integer_interval_of(branches@[j], intervals@[m]) && in_integer_bounds(intervals@[m], k));
            }
            if integer_covered(branches@, k) {
                let (j, b) = choose|j: int, b: IntegerBounds| 0 <= j < branches@.len()
                    && #[trigger] integer_interval_of(branches@[j], b) && in_integer_bounds(b, k);
                let m = choose|m: int| 0 <= m < intervals@.len() && intervals@[m] == b;
                assert(in_integer_bounds(intervals@[m], k));
            }
        }
        if r {
            assert forall|v: JsonValue, rx: spec_fn(Seq<char>, Seq<char>) -> bool| #[trigger] union_accepts(branches@, v, rx) by {
                if v is Number && number_is_integral(v->Number_0) {
                    let n = v->Number_0;
                    let k = integer_value(n);
                    assert(covered_integer(intervals@, k));
                    assert(integer_covered(branches@, k));
                    let (j, b) = choose|j: int, b: IntegerBounds| 0 <= j < branches@.len()
                        && #[trigger] integer_interval_of(branches@[j], b) && in_integer_bounds(b, k);
                    lemma_integer_interval_accepts(branches@[j], b, n, rx);
                } else {
                    let j = choose|j: int| 0 <= j < branches@.len() && #[trigger] has_noninteger_arm(branches@[j]);
                    lemma_noninteger_arm_accepts(branches@[j], v, rx);
                }
            }
        }
    }
    r
}

/// Whether a bound is a NaN (with which every comparison fails).
pub open spec fn bound_nan(b: NumberBound) -> bool {
    match b {
        NumberBound::Unbounded => false,
        NumberBound::Inclusive(v) => float_is_nan(v),
        NumberBound::Exclusive(v) => float_is_nan(v),
    }
}

/// Whether the number `x = (p, q)`, `q > 0`, lies above a lower bound.
pub open spec fn lower_ok_at(b: NumberBound, x: (int, int)) -> bool {
    match b {
        NumberBound::Unbounded => true,
        NumberBound::Inclusive(bits) => rat_le(float_rational(bits), x),
        NumberBound::Exclusive(bits) => rat_lt(float_rational(bits), x),
    }
}

/// Whether the number `x = (p, q)`, `q > 0`, lies below an upper bound.
pub open spec fn upper_ok_at(b: NumberBound, x: (int, int)) -> bool {
    match b {
        NumberBound::Unbounded => true,
        NumberBound::Inclusive(bits) => rat_le(x, float_rational(bits)),
        NumberBound::Exclusive(bits) => rat_lt(x, float_rational(bits)),
    }
}

/// An upper bound's place on a doubled scale (values times 2^1075): just
/// after its value when included, at it when excluded.
pub open spec fn upper_rank(b: NumberBound) -> int {
    match b {
        NumberBound::Unbounded => 0,
        NumberBound::Inclusive(v) => 2 * scaled_value(v) + 1,
        NumberBound::Exclusive(v) => 2 * scaled_value(v),
    }
}

/// A lower bound's place on the doubled scale: at its value when included,
/// just after it when excluded.
pub open spec fn lower_rank(b: NumberBound) -> int {
    match b {
        NumberBound::Unbounded => 0,
        NumberBound::Inclusive(v) => 2 * scaled_value(v),
        NumberBound::Exclusive(v) => 2 * scaled_value(v) + 1,
    }
}

/// Whether a range reaching up to `upper` and a range starting at `lower`
/// leave no number between them (compared as doubles).
pub open spec fn bounds_touch(upper: NumberBound, lower: NumberBound) -> bool {
    match (upper, lower) {
        (NumberBound::Unbounded, _) => true,
        (_, NumberBound::Unbounded) => true,
        (NumberBound::Exclusive(u), NumberBound::Exclusive(l)) => float_order(u, l) matches Some(c) && c > 0,
        (NumberBound::Inclusive(u), NumberBound::Inclusive(l)) => float_order(u, l) matches Some(c) && c >= 0,
        (NumberBound::Inclusive(u), NumberBound::Exclusive(l)) => float_order(u, l) matches Some(c) && c >= 0,
        (NumberBound::Exclusive(u), NumberBound::Inclusive(l)) => float_order(u, l) matches Some(c) && c >= 0,
    }
}

/// The farther of two upper bounds (compared as doubles; the first one
/// when the second is not farther).
pub open spec fn farther_upper_spec(a: NumberBound, b: NumberBound) -> NumberBound {
    match (a, b) {
        (NumberBound::Unbounded, _) => NumberBound::Unbounded,
        (_, NumberBound::Unbounded) => NumberBound::Unbounded,
        (NumberBound::Exclusive(x), NumberBound::Inclusive(y)) => if float_order(y, x) matches Some(c) && c >= 0 { b } else { a },
        (NumberBound::Inclusive(x), NumberBound::Inclusive(y)) => if float_order(y, x) == Some(1int) { b } else { a },
        (NumberBound::Inclusive(x), NumberBound::Exclusive(y)) => if float_order(y, x) == Some(1int) { b } else { a },
        (NumberBound::Exclusive(x), NumberBound::Exclusive(y)) => if float_order(y, x) == Some(1int) { b } else { a },
    }
}

/// The largest magnitude of a double's bit pattern, times 2^1074.
pub open spec fn max_magnitude() -> int {
    field_magnitude(0x7ff, 0xF_FFFF_FFFF_FFFF)
}

/// Every bit pattern's scaled value lies within the largest magnitude.
proof fn lemma_scaled_bounded(bits: u64)
    ensures
        -max_magnitude() <= scaled_value(bits) <= max_magnitude(),
        max_magnitude() >= 0,
{
    let e = float_exponent_field(bits);
    let f = float_fraction_field(bits);
    lemma_field_magnitude_fraction(e, f);
    if e < 0x7ff || f < 0xF_FFFF_FFFF_FFFF {
        lemma_field_magnitude_order(e, f, 0x7ff, 0xF_FFFF_FFFF_FFFF);
    }
}

/// Where the farther bound lands: one of the two, farther in rank when it
/// is not the first, and (without NaNs) the one of larger rank.
proof fn lemma_farther_upper(a: NumberBound, b: NumberBound)
    requires
        !(a is Unbounded),
        !(b is Unbounded),
    ensures
        farther_upper_spec(a, b) == a || farther_upper_spec(a, b) == b,
        farther_upper_spec(a, b) != a ==> upper_rank(farther_upper_spec(a, b)) > upper_rank(a),
        !bound_nan(a) && !bound_nan(b) ==> upper_rank(farther_upper_spec(a, b)) >= upper_rank(a)
            && upper_rank(farther_upper_spec(a, b)) >= upper_rank(b),
{
}

/// Touching bounds extend a covered stretch: a number beyond `upper` lies
/// above a touching `lower`. Without NaNs, touching is comparing ranks.
proof fn lemma_bounds_touch(upper: NumberBound, lower: NumberBound, x: (int, int))
    requires
        !(upper is Unbounded),
        x.1 > 0,
    ensures
        bounds_touch(upper, lower) && !upper_ok_at(upper, x) ==> lower_ok_at(lower, x),
        !bound_nan(upper) && !bound_nan(lower) && !(lower is Unbounded)
            ==> (bounds_touch(upper, lower) <==> lower_rank(lower) <= upper_rank(upper)),
{
    let q = x.1;
    let big = pow2(1074) as int;
    match upper {
        NumberBound::Inclusive(u) => lemma_float_vs_rational(u, x),
        NumberBound::Exclusive(u) => lemma_float_vs_rational(u, x),
        NumberBound::Unbounded => {},
    }
    match lower {
        NumberBound::Inclusive(l) => lemma_float_vs_rational(l, x),
        NumberBound::Exclusive(l) => lemma_float_vs_rational(l, x),
        NumberBound::Unbounded => {},
    }
    match (upper, lower) {
        (NumberBound::Inclusive(u), NumberBound::Inclusive(l)) => {
            lemma_scaled_le_mul(scaled_value(l), scaled_value(u), q);
        },
        (NumberBound::Inclusive(u), NumberBound::Exclusive(l)) => {
            lemma_scaled_le_mul(scaled_value(l), scaled_value(u), q);
        },
        (NumberBound::Exclusive(u), NumberBound::Inclusive(l)) => {
            lemma_scaled_le_mul(scaled_value(l), scaled_value(u), q);
        },
        (NumberBound::Exclusive(u), NumberBound::Exclusive(l)) => {
            lemma_scaled_le_mul(scaled_value(l), scaled_value(u), q);
        },
        _ => {},
    }
}

/// Multiplying by a positive denominator keeps the order of two values.
proof fn lemma_scaled_le_mul(a: int, b: int, q: int)
    requires
        q > 0,
    ensures
        a <= b ==> a * q <= b * q,
        a < b ==> a * q < b * q,
{
    assert(a <= b ==> a * q <= b * q) by (nonlinear_arith)
        requires
            q > 0;
    assert(a < b ==> a * q < b * q) by (nonlinear_arith)
        requires
            q > 0;
}

/// The number at `rank` on the doubled scale, `(rank, 2^1075)`, lies beyond
/// an upper bound of rank at most `rank`, and below a lower bound of rank
/// above `rank`.
proof fn lemma_rank_witness(b: NumberBound, rank: int)
    ensures
        !(b is Unbounded) && upper_rank(b) <= rank ==> !upper_ok_at(b, (rank, 2 * (pow2(1074) as int))),
        !(b is Unbounded) && lower_rank(b) > rank ==> !lower_ok_at(b, (rank, 2 * (pow2(1074) as int))),
{
    lemma_pow2_pos(1074);
    let big = pow2(1074) as int;
    let x = (rank, 2 * big);
    match b {
        NumberBound::Inclusive(v) => {
            lemma_float_vs_rational(v, x);
            let s = scaled_value(v);
            assert(rank * big <= s * (2 * big) <==> rank <= 2 * s) by (nonlinear_arith)
                requires
                    big > 0;
            assert(s * (2 * big) <= rank * big <==> 2 * s <= rank) by (nonlinear_arith)
                requires
                    big > 0;
        },
        NumberBound::Exclusive(v) => {
            lemma_float_vs_rational(v, x);
            let s = scaled_value(v);
            assert(rank * big < s * (2 * big) <==> rank < 2 * s) by (nonlinear_arith)
                requires
                    big > 0;
            assert(s * (2 * big) < rank * big <==> 2 * s < rank) by (nonlinear_arith)
                requires
                    big > 0;
        },
        NumberBound::Unbounded => {},
    }
}

/// A number below every bounded lower end.
proof fn lemma_below_all_lowers(b: NumberBound)
    ensures
        !(b is Unbounded) ==> !lower_ok_at(b, (-(max_magnitude() + 1), 1)),
{
    lemma_pow2_pos(1074);
    let big = pow2(1074) as int;
    let m = max_magnitude();
    match b {
        NumberBound::Inclusive(v) => {
            lemma_scaled_bounded(v);
            lemma_float_vs_rational(v, (-(m + 1), 1));
            let s = scaled_value(v);
            assert(s * 1 > -(m + 1) * big) by (nonlinear_arith)
                requires
                    s >= -m,
                    m >= 0,
                    big >= 1;
        },
        NumberBound::Exclusive(v) => {
            lemma_scaled_bounded(v);
            lemma_float_vs_rational(v, (-(m + 1), 1));
            let s = scaled_value(v);
            assert(s * 1 > -(m + 1) * big) by (nonlinear_arith)
                requires
                    s >= -m,
                    m >= 0,
                    big >= 1;
        },
        NumberBound::Unbounded => {},
    }
}

/// Whether a range reaching up to `upper` and one starting at `lower` leave
/// no number between them, compared as doubles.
fn endpoints_touch_or_overlap(upper: NumberBound, lower: NumberBound) -> (r: bool)
    ensures
        r == bounds_touch(upper, lower),
{
    match (upper, lower) {
        (NumberBound::Unbounded, _) => true,
        (_, NumberBound::Unbounded) => true,
        (NumberBound::Exclusive(u), NumberBound::Exclusive(l)) => match compare_float_bits(u, l) {
            Some(c) => c > 0,
            None => false,
        },
        (NumberBound::Inclusive(u), NumberBound::Inclusive(l)) => match compare_float_bits(u, l) {
            Some(c) => c >= 0,
            None => false,
        },
        (NumberBound::Inclusive(u), NumberBound::Exclusive(l)) => match compare_float_bits(u, l) {
            Some(c) => c >= 0,
            None => false,
        },
        (NumberBound::Exclusive(u), NumberBound::Inclusive(l)) => match compare_float_bits(u, l) {
            Some(c) => c >= 0,
            None => false,
        },
    }
}

/// The farther of two upper bounds, compared as doubles.
fn farther_upper(a: NumberBound, b: NumberBound) -> (r: NumberBound)
    ensures
        r == farther_upper_spec(a, b),
{
    match (a, b) {
        (NumberBound::Unbounded, _) => NumberBound::Unbounded,
        (_, NumberBound::Unbounded) => NumberBound::Unbounded,
        (NumberBound::Exclusive(x), NumberBound::Inclusive(y)) => match compare_float_bits(y, x) {
            Some(c) => if c >= 0 { b } else { a },
            None => a,
        },
        (NumberBound::Inclusive(x), NumberBound::Inclusive(y)) => match compare_float_bits(y, x) {
            Some(c) => if c > 0 { b } else { a },
            None => a,
        },
        (NumberBound::Inclusive(x), NumberBound::Exclusive(y)) => match compare_float_bits(y, x) {
            Some(c) => if c > 0 { b } else { a },
            None => a,
        },
        (NumberBound::Exclusive(x), NumberBound::Exclusive(y)) => match compare_float_bits(y, x) {
            Some(c) => if c > 0 { b } else { a },
            None => a,
        },
    }
}

/// Whether some bounds of the list hold the number `x`.
pub open spec fn covered_number(intervals: Seq<NumberBounds>, x: (int, int)) -> bool {
    exists|i: int| 0 <= i < intervals.len() && lower_ok_at((#[trigger] intervals[i]).lower, x)
        && upper_ok_at(intervals[i].upper, x)
}

/// Whether no bound of the list is a NaN.
pub open spec fn bounds_free_of_nan(intervals: Seq<NumberBounds>) -> bool {
    forall|i: int| 0 <= i < intervals.len() ==> !bound_nan((#[trigger] intervals[i]).lower) && !bound_nan(intervals[i].upper)
}

/// Whether the number ranges together hold every number: sweeps upward from
/// the ranges unbounded below, joining each range whose lower end touches
/// the stretch covered so far. True only when they do; without NaN bounds,
/// true exactly when they do.
pub fn number_bounds_cover_all(intervals: &Vec<NumberBounds>) -> (r: bool)
    ensures
        r ==> forall|x: (int, int)| x.1 > 0 ==> #[trigger] covered_number(intervals@, x),
        !r && bounds_free_of_nan(intervals@) ==> exists|x: (int, int)| x.1 > 0 && !#[trigger] covered_number(intervals@, x),
{
    let ghost free = bounds_free_of_nan(intervals@);
    let mut reach: Option<NumberBound> = None;
    let mut i: usize = 0;
    while i < intervals.len()
        invariant
            i <= intervals@.len(),
            free == bounds_free_of_nan(intervals@),
            reach matches Some(rb) ==> !(rb is Unbounded)
                && (forall|x: (int, int)| x.1 > 0 && upper_ok_at(rb, x) ==> #[trigger] covered_number(intervals@, x))
                && (free ==> !bound_nan(rb)),
            reach is None ==> forall|k: int| 0 <= k < i ==> !((#[trigger] intervals@[k]).lower is Unbounded),
            forall|k: int| 0 <= k < i && (#[trigger] intervals@[k]).lower is Unbounded
                ==> !(intervals@[k].upper is Unbounded) && reach is Some
                    && (free ==> upper_rank(intervals@[k].upper) <= upper_rank(reach->0)),
        decreases intervals@.len() - i,
    {
        let bounds = intervals[i];
        if bounds.lower == NumberBound::Unbounded {
            if bounds.upper == NumberBound::Unbounded {
                assert forall|x: (int, int)| x.1 > 0 implies #[trigger] covered_number(intervals@, x) by {
                    assert(lower_ok_at(intervals@[i as int].lower, x) && upper_ok_at(intervals@[i as int].upper, x));
                }
                return true;
            }
            let upper = bounds.upper;
            let ghost old_reach = reach;
            proof {
                assert forall|x: (int, int)| x.1 > 0 && upper_ok_at(upper, x) implies #[trigger] covered_number(intervals@, x) by {
                    assert(lower_ok_at(intervals@[i as int].lower, x) && upper_ok_at(intervals@[i as int].upper, x));
                }
                if free {
                    assert(!bound_nan(intervals@[i as int].upper));
                }
            }
            reach = Some(match reach {
                Some(old) => farther_upper(old, upper),
                None => upper,
            });
            proof {
                if old_reach is Some {
                    lemma_farther_upper(old_reach->0, upper);
                }
            }
        }
        i = i + 1;
    }
    let mut reach = match reach {
        Some(rb) => rb,
        None => {
            proof {
                let w = (-(max_magnitude() + 1), 1int);
                assert forall|k: int| 0 <= k < intervals@.len() implies !lower_ok_at((#[trigger] intervals@[k]).lower, w) by {
                    lemma_below_all_lowers(intervals@[k].lower);
                }
                assert(!covered_number(intervals@, w));
            }
            return false;
        },
    };
    proof {
        match reach {
            NumberBound::Inclusive(v) => lemma_scaled_bounded(v),
            NumberBound::Exclusive(v) => lemma_scaled_bounded(v),
            NumberBound::Unbounded => {},
        }
    }
    loop
        invariant
            free == bounds_free_of_nan(intervals@),
            !(reach is Unbounded),
            upper_rank(reach) <= 2 * max_magnitude() + 1,
            forall|x: (int, int)| x.1 > 0 && upper_ok_at(reach, x) ==> #[trigger] covered_number(intervals@, x),
            free ==> !bound_nan(reach),
            forall|k: int| 0 <= k < intervals@.len() && (#[trigger] intervals@[k]).lower is Unbounded
                ==> !(intervals@[k].upper is Unbounded) && (free ==> upper_rank(intervals@[k].upper) <= upper_rank(reach)),
        decreases 2 * max_magnitude() + 2 - upper_rank(reach),
    {
        let mut advanced = false;
        let ghost start = reach;
        let mut j: usize = 0;
        while j < intervals.len()
            invariant
                j <= intervals@.len(),
                free == bounds_free_of_nan(intervals@),
                !(reach is Unbounded),
                upper_rank(reach) <= 2 * max_magnitude() + 1,
                forall|x: (int, int)| x.1 > 0 && upper_ok_at(reach, x) ==> #[trigger] covered_number(intervals@, x),
                free ==> !bound_nan(reach),
                forall|k: int| 0 <= k < intervals@.len() && (#[trigger] intervals@[k]).lower is Unbounded
                    ==> !(intervals@[k].upper is Unbounded) && (free ==> upper_rank(intervals@[k].upper) <= upper_rank(reach)),
                advanced ==> upper_rank(start) < upper_rank(reach),
                !advanced ==> reach == start,
                !advanced && free ==> forall|k: int| 0 <= k < j && !((#[trigger] intervals@[k]).lower is Unbounded)
                    ==> lower_rank(intervals@[k].lower) > upper_rank(reach)
                        || (!(intervals@[k].upper is Unbounded) && upper_rank(intervals@[k].upper) <= upper_rank(reach)),
            decreases intervals@.len() - j,
        {
            let bounds = intervals[j];
            proof {
                if free {
                    assert(!bound_nan(intervals@[j as int].lower) && !bound_nan(intervals@[j as int].upper));
                }
            }
            if endpoints_touch_or_overlap(reach, bounds.lower) {
                if bounds.upper == NumberBound::Unbounded {
                    assert forall|x: (int, int)| x.1 > 0 implies #[trigger] covered_number(intervals@, x) by {
                        lemma_bounds_touch(reach, bounds.lower, x);
                        if !upper_ok_at(reach, x) {
                            assert(lower_ok_at(intervals@[j as int].lower, x) && upper_ok_at(intervals@[j as int].upper, x));
                        }
                    }
                    return true;
                }
                let next = farther_upper(reach, bounds.upper);
                proof {
                    lemma_farther_upper(reach, bounds.upper);
                    if free && !(bounds.lower is Unbounded) {
                        lemma_bounds_touch(reach, bounds.lower, (0, 1));
                    }
                }
                if next != reach {
                    proof {
                        assert forall|x: (int, int)| x.1 > 0 && upper_ok_at(next, x) implies #[trigger] covered_number(intervals@, x) by {
                            lemma_bounds_touch(reach, bounds.lower, x);
                            if !upper_ok_at(reach, x) {
                                assert(lower_ok_at(intervals@[j as int].lower, x) && upper_ok_at(intervals@[j as int].upper, x));
                            }
                        }
                        match next {
                            NumberBound::Inclusive(v) => lemma_scaled_bounded(v),
                            NumberBound::Exclusive(v) => lemma_scaled_bounded(v),
                            NumberBound::Unbounded => {},
                        }
                    }
                    reach = next;
                    advanced = true;
                }
            } else {
                proof {
                    if free {
                        lemma_bounds_touch(reach, bounds.lower, (0, 1));
                    }
                }
            }
            j = j + 1;
        }
        if !advanced {
            proof {
                if free {
                    let w = (upper_rank(reach), 2 * (pow2(1074) as int));
                    lemma_pow2_pos(1074);
                    assert forall|k: int| 0 <= k < intervals@.len() implies !(lower_ok_at((#[trigger] intervals@[k]).lower, w)
                        && upper_ok_at(intervals@[k].upper, w)) by {
                        lemma_rank_witness(intervals@[k].lower, upper_rank(reach));
                        lemma_rank_witness(intervals@[k].upper, upper_rank(reach));
                    }
                    assert(!covered_number(intervals@, w));
                }
            }
            return false;
        }
    }
}

/// Whether `b` is the bounds of a plain number arm (no `multipleOf`, no
/// enumeration) reached from `s` through nested `anyOf`s.
pub open spec fn number_interval_of(s: SchemaNode, b: NumberBounds) -> bool
    decreases s,
{
    match s.kind {
        SchemaNodeKind::AnyOf(children) => exists|i: int| 0 <= i < children@.len() && number_interval_of(#[trigger] children@[i], b),
        SchemaNodeKind::Number { bounds, multiple_of, enumeration } => multiple_of is None && enumeration is None && b == bounds,
        _ => false,
    }
}

/// Whether a plain number arm of some branch holds the number `x`.
pub open spec fn number_covered(branches: Seq<SchemaNode>, x: (int, int)) -> bool {
    exists|i: int, b: NumberBounds| 0 <= i < branches.len() && #[trigger] number_interval_of(branches[i], b)
        && lower_ok_at(b.lower, x) && upper_ok_at(b.upper, x)
}

/// Whether no plain number arm of the branches has a NaN bound.
pub open spec fn number_arms_free_of_nan(branches: Seq<SchemaNode>) -> bool {
    forall|i: int, b: NumberBounds| 0 <= i < branches.len() && #[trigger] number_interval_of(branches[i], b)
        ==> !bound_nan(b.lower) && !bound_nan(b.upper)
}

/// The cover `any_of_numeric_range_cover_is_universal` looks for: every
/// other JSON type accepted wholesale by a branch, and every number held by
/// a plain number arm.
pub open spec fn number_range_cover(branches: Seq<SchemaNode>) -> bool {
    &&& other_types_covered(branches, JSON_TYPE_NUMBER)
    &&& forall|x: (int, int)| x.1 > 0 ==> #[trigger] number_covered(branches, x)
}

/// A plain number arm accepts every number in its bounds.
proof fn lemma_number_interval_accepts(s: SchemaNode, b: NumberBounds, n: JsonNumber, rx: spec_fn(Seq<char>, Seq<char>) -> bool)
    requires
        number_interval_of(s, b),
        lower_ok_at(b.lower, number_rational(n)),
        upper_ok_at(b.upper, number_rational(n)),
    ensures
        accepts(s, JsonValue::Number(n), rx),
    decreases s,
{
    match s.kind {
        SchemaNodeKind::AnyOf(children) => {
            let i = choose|i: int| 0 <= i < children@.len() && number_interval_of(#[trigger] children@[i], b);
            lemma_number_interval_accepts(children@[i], b, n, rx);
        },
        _ => {},
    }
}

/// Appends the bounds of the plain number arms `schema` reaches to `out`.
fn collect_number_arms(schema: &SchemaNode, out: &mut Vec<NumberBounds>)
    ensures
        final(out)@.len() >= old(out)@.len(),
        forall|k: int| 0 <= k < old(out)@.len() ==> final(out)@[k] == old(out)@[k],
        forall|k: int| old(out)@.len() <= k < final(out)@.len() ==> number_interval_of(*schema, #[trigger] final(out)@[k]),
        forall|b: NumberBounds| #[trigger] number_interval_of(*schema, b)
            ==> exists|k: int| old(out)@.len() <= k < final(out)@.len() && final(out)@[k] == b,
    decreases *schema,
{
    let ghost start = out@;
    match &schema.kind {
        SchemaNodeKind::AnyOf(children) => {
            let mut i: usize = 0;
            while i < children.len()
                invariant
                    i <= children@.len(),
                    schema.kind == SchemaNodeKind::AnyOf(*children),
                    out@.len() >= start.len(),
                    forall|k: int| 0 <= k < start.len() ==> out@[k] == start[k],
                    forall|k: int| #![trigger out@[k]] start.len() <= k < out@.len() ==> exists|j: int| 0 <= j < i
                        && number_interval_of(#[trigger] children@[j], out@[k]),
                    forall|j: int, b: NumberBounds| 0 <= j < i && #[trigger] number_interval_of(children@[j], b)
                        ==> exists|k: int| start.len() <= k < out@.len() && out@[k] == b,
                decreases children@.len() - i,
            {
                proof {
                    assert(decreases_to!(*schema => schema.kind));
                    assert(decreases_to!(schema.kind => schema.kind->AnyOf_0));
                    assert(decreases_to!(*children => children[i as int]));
                }
                let ghost before = out@;
                collect_number_arms(&children[i], out);
                proof {
                    assert forall|k: int| #![trigger out@[k]] start.len() <= k < out@.len() implies exists|j: int| 0 <= j < i + 1
                        && number_interval_of(#[trigger] children@[j], out@[k]) by {
                        if k < before.len() {
                            assert(out@[k] == before[k]);
                        } else {
                            assert(number_interval_of(children@[i as int], out@[k]));
                        }
                    }
                    assert forall|j: int, b: NumberBounds| 0 <= j < i + 1 && #[trigger] number_interval_of(children@[j], b)
                        implies exists|k: int| start.len() <= k < out@.len() && out@[k] == b by {
                        if j < i {
                            let k = choose|k: int| start.len() <= k < before.len() && before[k] == b;
                            assert(out@[k] == before[k]);
                        }
                    }
                }
                i = i + 1;
            }
            proof {
                assert(schema.kind->AnyOf_0 == *children);
                assert forall|k: int| start.len() <= k < out@.len() implies number_interval_of(*schema, #[trigger] out@[k]) by {
                    let j = choose|j: int| 0 <= j < children@.len() && number_interval_of(#[trigger] children@[j], out@[k]);
                    assert(number_interval_of(schema.kind->AnyOf_0@[j], out@[k]));
                }
                assert forall|b: NumberBounds| #[trigger] number_interval_of(*schema, b)
                    implies exists|k: int| start.len() <= k < out@.len() && out@[k] == b by {
                    let j = choose|j: int| 0 <= j < schema.kind->AnyOf_0@.len() && number_interval_of(#[trigger] schema.kind->AnyOf_0@[j], b);
                    assert(number_interval_of(children@[j], b));
                }
            }
        },
        SchemaNodeKind::Number { bounds, multiple_of, enumeration } => {
            if multiple_of.is_none() && enumeration.is_none() {
                out.push(*bounds);
                proof {
                    assert(out@[start.len() as int] == *bounds);
                }
            }
        },
        _ => {},
    }
}

/// Whether an `anyOf` of `branches` accepts every value: every type other
/// than number is accepted wholesale by some branch, and the plain number
/// arms (no `multipleOf`, no enumeration; read through nested `anyOf`s)
/// together hold every number, as `number_bounds_cover_all` finds. True
/// only for such a cover; without NaN bounds, exactly for one.
pub fn any_of_numeric_range_cover_is_universal(branches: &[SchemaNode]) -> (r: bool)
    ensures
        r ==> number_range_cover(branches@),
        number_arms_free_of_nan(branches@) ==> (r == number_range_cover(branches@)),
        r ==> forall|v: JsonValue, rx: spec_fn(Seq<char>, Seq<char>) -> bool| #[trigger] union_accepts(branches@, v, rx),
{
    if !other_types_covered_exec(branches, JSON_TYPE_NUMBER) {
        return false;
    }
    let mut intervals: Vec<NumberBounds> = Vec::new();
    let mut i: usize = 0;
    while i < branches.len()
        invariant
            i <= branches@.len(),
            forall|k: int| #![trigger intervals@[k]] 0 <= k < intervals@.len() ==> exists|j: int| 0 <= j < i
                && number_interval_of(#[trigger] branches@[j], intervals@[k]),
            forall|j: int, b: NumberBounds| 0 <= j < i && #[trigger] number_interval_of(branches@[j], b)
                ==> exists|k: int| 0 <= k < intervals@.len() && intervals@[k] == b,
        decreases branches@.len() - i,
    {
        let ghost before = intervals@;
        collect_number_arms(&branches[i], &mut intervals);
        proof {
            assert forall|k: int| #![trigger intervals@[k]] 0 <= k < intervals@.len() implies exists|j: int| 0 <= j < i + 1
                && number_interval_of(#[trigger] branches@[j], intervals@[k]) by {
                if k < before.len() {
                    assert(intervals@[k] == before[k]);
                } else {
                    assert(number_interval_of(branches@[i as int], intervals@[k]));
                }
            }
            assert forall|j: int, b: NumberBounds| 0 <= j < i + 1 && #[trigger] number_interval_of(branches@[j], b)
                implies exists|k: int| 0 <= k < intervals@.len() && intervals@[k] == b by {
                if j < i {
                    let k = choose|k: int| 0 <= k < before.len() && before[k] == b;
                    assert(intervals@[k] == before[k]);
                }
            }
        }
        i = i + 1;
    }
    let r = number_bounds_cover_all(&intervals);
    proof {
        assert forall|x: (int, int)| #![trigger covered_number(intervals@, x)] #![trigger number_covered(branches@, x)]
            covered_number(intervals@, x) <==> number_covered(branches@, x) by {
            if covered_number(intervals@, x) {
                let m = choose|m: int| 0 <= m < intervals@.len() && lower_ok_at((#[trigger] intervals@[m]).lower, x)
                    && upper_ok_at(intervals@[m].upper, x);
                let j = choose|j: int| 0 <= j < branches@.len() && number_interval_of(#[trigger] branches@[j], intervals@[m]);
                assert(number_interval_of(branches@[j], intervals@[m]));
            }
            if number_covered(branches@, x) {
                let (j, b) = choose|j: int, b: NumberBounds| 0 <= j < branches@.len()
                    && #[trigger] number_interval_of(branches@[j], b) && lower_ok_at(b.lower, x) && upper_ok_at(b.upper, x);
                let m = choose|m: int| 0 <= m < intervals@.len() && intervals@[m] == b;
                assert(lower_ok_at(intervals@[m].lower, x) && upper_ok_at(intervals@[m].upper, x));
            }
        }
        if number_arms_free_of_nan(branches@) {
            assert forall|k: int| 0 <= k < intervals@.len() implies !bound_nan((#[trigger] intervals@[k]).lower)
                && !bound_nan(intervals@[k].upper) by {
                let j = choose|j: int| 0 <= j < branches@.len() && number_interval_of(#[trigger] branches@[j], intervals@[k]);
                assert(number_interval_of(branches@[j], intervals@[k]));
            }
        }
        if !r && number_arms_free_of_nan(branches@) {
            let x = choose|x: (int, int)| x.1 > 0 && !#[trigger] covered_number(intervals@, x);
            assert(!number_covered(branches@, x));
        }
        assert forall|v: JsonValue, rx: spec_fn(Seq<char>, Seq<char>) -> bool| r
            implies #[trigger] union_accepts(branches@, v, rx) by {
            let t = json_type_bit(v);
            assert(is_type_bit(t));
            if t == JSON_TYPE_NUMBER {
                let n = v->Number_0;
                let x = number_rational(n);
                lemma_number_denominator(n);
                assert(covered_number(intervals@, x));
                assert(number_covered(branches@, x));
                let (j, b) = choose|j: int, b: NumberBounds| 0 <= j < branches@.len()
                    && #[trigger] number_interval_of(branches@[j], b) && lower_ok_at(b.lower, x) && upper_ok_at(b.upper, x);
                lemma_number_interval_accepts(branches@[j], b, n, rx);
            } else {
                assert(some_branch_obviously_accepts(branches@, t));
                let j = choose|j: int| 0 <= j < branches@.len() && obviously_accepts_type(#[trigger] branches@[j], t);
                lemma_type_facts_sound(branches@[j], v, rx);
            }
        }
    }
    r
}

} // verus!
