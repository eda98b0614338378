//! Subset facts for the complement of a union: `not anyOf(branches)` where
//! the branches take every value of all types but one wholesale, and a plain
//! branch of the remaining type bounds its count, length or value on one
//! side, so that the complement is the opposite half-line.

use vstd::prelude::*;
use crate::json::{JsonValue, JSON_TYPE_ARRAY, JSON_TYPE_OBJECT, JSON_TYPE_STRING, JSON_TYPE_NUMBER, json_type_bit, number_rational};
use crate::schema::{SchemaNode, SchemaNodeKind, CountRange, NumberBounds};
use crate::semantics::accepts;
use crate::types::lemma_trivially_universal_accepts;
use crate::shape::{plain_count_array, plain_count_object, array_schema_is_plain_count, object_schema_is_plain_count};
use crate::partitions::{union_accepts, other_types_covered, other_types_covered_exec};
use crate::intervals::{in_u64_range, in_usize_range, complement_u64_count_halfline, complement_usize_count_halfline};
use crate::anyof_partitions::lemma_other_types_accepted;
use crate::numeric::{BoundView, IntervalView, NumericInterval, NumericIntervalBound, number_bound_view, numeric_bound,
    interval_view, contains_view, interval_admits, numeric_interval_bound, numeric_interval_contains, interval_bound_from,
    lemma_number_bound_admits, lemma_contains_sound, lemma_number_denominator, lower_admits, upper_admits};

verus! {

/// Whether `outer` holds every count from `min` to `max` (unbounded when
/// `max` is `None`).
pub open spec fn u64_range_holds(outer: CountRange<u64>, min: int, max: Option<int>) -> bool {
    outer.min <= min && (outer.max matches Some(m) ==> (max matches Some(o) && o <= m))
}

/// Whether `outer` holds every count from `min` to `max`.
pub open spec fn usize_range_holds(outer: CountRange<usize>, min: int, max: Option<int>) -> bool {
    outer.min <= min && (outer.max matches Some(m) ==> (max matches Some(o) && o <= m))
}

/// Whether the counts outside the half-line `range` lie in `outer`: the
/// range is universal (nothing lies outside), or it is `min..` with `outer`
/// holding `0..=min-1`, or `0..=max` with `outer` holding `max+1..`.
pub open spec fn u64_complement_within(range: CountRange<u64>, outer: CountRange<u64>) -> bool {
    ||| range.min == 0 && range.max is None
    ||| range.min != 0 && range.max is None && u64_range_holds(outer, 0, Some(range.min - 1))
    ||| range.min == 0 && (range.max matches Some(m) && m < u64::MAX && u64_range_holds(outer, m + 1, None))
}

/// `u64_complement_within` for `usize` counts.
pub open spec fn usize_complement_within(range: CountRange<usize>, outer: CountRange<usize>) -> bool {
    ||| range.min == 0 && range.max is None
    ||| range.min != 0 && range.max is None && usize_range_holds(outer, 0, Some(range.min - 1))
    ||| range.min == 0 && (range.max matches Some(m) && m < usize::MAX && usize_range_holds(outer, m + 1, None))
}

/// Whether every count outside `range` lies in `outer`, given the test above.
proof fn lemma_u64_complement_within(range: CountRange<u64>, outer: CountRange<u64>, n: int)
    requires
        u64_complement_within(range, outer),
        n >= 0,
        !in_u64_range(range, n),
    ensures
        in_u64_range(outer, n),
{
}

/// `lemma_u64_complement_within` for `usize` counts.
proof fn lemma_usize_complement_within(range: CountRange<usize>, outer: CountRange<usize>, n: int)
    requires
        usize_complement_within(range, outer),
        n >= 0,
        !in_usize_range(range, n),
    ensures
        in_usize_range(outer, n),
{
}

/// Tests `u64_complement_within` with the half-line complement.
fn u64_complement_is_within(range: CountRange<u64>, outer: &CountRange<u64>) -> (r: bool)
    ensures
        r == u64_complement_within(range, *outer),
{
    if range.min == 0 && range.max.is_none() {
        return true;
    }
    match complement_u64_count_halfline(range) {
        Some(complement) => outer.contains_range(complement),
        None => false,
    }
}

/// Tests `usize_complement_within` with the half-line complement.
fn usize_complement_is_within(range: CountRange<usize>, outer: &CountRange<usize>) -> (r: bool)
    ensures
        r == usize_complement_within(range, *outer),
{
    if range.min == 0 && range.max.is_none() {
        return true;
    }
    match complement_usize_count_halfline(range) {
        Some(complement) => outer.contains_range(complement),
        None => false,
    }
}

/// A plain-count array schema accepts exactly the arrays whose length lies
/// in its count range.
proof fn lemma_plain_count_array_accepts(s: SchemaNode, values: Vec<JsonValue>, rx: spec_fn(Seq<char>, Seq<char>) -> bool)
    requires
        plain_count_array(s),
    ensures
        accepts(s, JsonValue::Array(values), rx) == in_u64_range(s.kind->item_count, values@.len() as int),
{
    match s.kind {
        SchemaNodeKind::Array { items, .. } => {
            assert forall|i: int| 0 <= i < values@.len() implies accepts(*items, #[trigger] values@[i], rx) by {
                lemma_trivially_universal_accepts(*items, values@[i], rx);
            }
        },
        _ => {},
    }
}

/// A plain-count object schema accepts exactly the objects whose size lies
/// in its count range.
proof fn lemma_plain_count_object_accepts(s: SchemaNode, members: Vec<(String, JsonValue)>, rx: spec_fn(Seq<char>, Seq<char>) -> bool)
    requires
        plain_count_object(s),
    ensures
        accepts(s, JsonValue::Object(members), rx) == in_usize_range(s.kind->property_count, members@.len() as int),
{
    match s.kind {
        SchemaNodeKind::Object { additional, property_names, .. } => {
            assert forall|i: int| 0 <= i < members@.len() implies accepts(*additional, (#[trigger] members@[i]).1, rx) by {
                lemma_trivially_universal_accepts(*additional, members@[i].1, rx);
            }
            assert forall|i: int| 0 <= i < members@.len() implies accepts(*property_names, JsonValue::String((#[trigger] members@[i]).0), rx) by {
                lemma_trivially_universal_accepts(*property_names, JsonValue::String(members@[i].0), rx);
            }
        },
        _ => {},
    }
}

/// A plain array branch whose count half-line has its complement in the
/// plain-count array `sup`.
pub open spec fn array_halfline_branch(b: SchemaNode, sup: SchemaNode) -> bool {
    plain_count_array(b) && u64_complement_within(b.kind->item_count, sup.kind->item_count)
}

/// The test `negated_untyped_array_count_halfline_subset_of` performs.
pub open spec fn array_halfline_cover(branches: Seq<SchemaNode>, sup: SchemaNode) -> bool {
    &&& other_types_covered(branches, JSON_TYPE_ARRAY)
    &&& plain_count_array(sup)
    &&& exists|j: int| 0 <= j < branches.len() && #[trigger] array_halfline_branch(branches[j], sup)
}

/// Whether `not anyOf(branches)` is a subset of `sup`: the branches take
/// every non-array value wholesale, `sup` is a plain-count array schema, and
/// a plain-count array branch bounds the count on one side with the other
/// side within `sup` (or takes every array).
pub fn negated_untyped_array_count_halfline_subset_of(branches: &[SchemaNode], sup: &SchemaNode) -> (r: bool)
    ensures
        r == array_halfline_cover(branches@, *sup),
        r ==> forall|v: JsonValue, rx: spec_fn(Seq<char>, Seq<char>) -> bool|
            !union_accepts(branches@, v, rx) ==> #[trigger] accepts(*sup, v, rx),
{
    if !other_types_covered_exec(branches, JSON_TYPE_ARRAY) || !array_schema_is_plain_count(sup) {
        return false;
    }
    let sup_count = match &sup.kind {
        SchemaNodeKind::Array { item_count, .. } => item_count,
        _ => return false,
    };
    let mut j: usize = 0;
    while j < branches.len()
        invariant
            j <= branches@.len(),
            other_types_covered(branches@, JSON_TYPE_ARRAY),
            plain_count_array(*sup),
            sup.kind->item_count == *sup_count,
            forall|k: int| 0 <= k < j ==> !#[trigger] array_halfline_branch(branches@[k], *sup),
        decreases branches@.len() - j,
    {
        if array_schema_is_plain_count(&branches[j]) {
            match &branches[j].kind {
                SchemaNodeKind::Array { item_count, .. } => {
                    if u64_complement_is_within(*item_count, sup_count) {
                        proof {
                            assert(array_halfline_branch(branches@[j as int], *sup));
                            lemma_array_halfline_sound(branches@, *sup, j as int);
                        }
                        return true;
                    }
                },
                _ => {},
            }
        }
        j = j + 1;
    }
    false
}

/// Law: with every non-array type covered and an array half-line branch,
/// every value outside the union is an array in `sup`.
proof fn lemma_array_halfline_sound(branches: Seq<SchemaNode>, sup: SchemaNode, j: int)
    requires
        other_types_covered(branches, JSON_TYPE_ARRAY),
        plain_count_array(sup),
        0 <= j < branches.len(),
        array_halfline_branch(branches[j], sup),
    ensures
        forall|v: JsonValue, rx: spec_fn(Seq<char>, Seq<char>) -> bool|
            !union_accepts(branches, v, rx) ==> #[trigger] accepts(sup, v, rx),
{
    assert forall|v: JsonValue, rx: spec_fn(Seq<char>, Seq<char>) -> bool|
        !union_accepts(branches, v, rx) implies #[trigger] accepts(sup, v, rx) by {
        if json_type_bit(v) != JSON_TYPE_ARRAY {
            lemma_other_types_accepted(branches, JSON_TYPE_ARRAY, v, rx);
        } else {
            let values = v->Array_0;
            lemma_plain_count_array_accepts(branches[j], values, rx);
            lemma_plain_count_array_accepts(sup, values, rx);
            assert(!accepts(branches[j], v, rx));
            lemma_u64_complement_within(branches[j].kind->item_count, sup.kind->item_count, values@.len() as int);
        }
    }
}

/// A plain object branch whose count half-line has its complement in the
/// plain-count object `sup`.
pub open spec fn object_halfline_branch(b: SchemaNode, sup: SchemaNode) -> bool {
    plain_count_object(b) && usize_complement_within(b.kind->property_count, sup.kind->property_count)
}

/// The test `negated_untyped_object_count_halfline_subset_of` performs.
pub open spec fn object_halfline_cover(branches: Seq<SchemaNode>, sup: SchemaNode) -> bool {
    &&& other_types_covered(branches, JSON_TYPE_OBJECT)
    &&& plain_count_object(sup)
    &&& exists|j: int| 0 <= j < branches.len() && #[trigger] object_halfline_branch(branches[j], sup)
}

/// Whether `not anyOf(branches)` is a subset of `sup`, for object counts
/// (see `negated_untyped_array_count_halfline_subset_of`).
pub fn negated_untyped_object_count_halfline_subset_of(branches: &[SchemaNode], sup: &SchemaNode) -> (r: bool)
    ensures
        r == object_halfline_cover(branches@, *sup),
        r ==> forall|v: JsonValue, rx: spec_fn(Seq<char>, Seq<char>) -> bool|
            !union_accepts(branches@, v, rx) ==> #[trigger] accepts(*sup, v, rx),
{
    if !other_types_covered_exec(branches, JSON_TYPE_OBJECT) || !object_schema_is_plain_count(sup) {
        return false;
    }
    let sup_count = match &sup.kind {
        SchemaNodeKind::Object { property_count, .. } => property_count,
        _ => return false,
    };
    let mut j: usize = 0;
    while j < branches.len()
        invariant
            j <= branches@.len(),
            other_types_covered(branches@, JSON_TYPE_OBJECT),
            plain_count_object(*sup),
            sup.kind->property_count == *sup_count,
            forall|k: int| 0 <= k < j ==> !#[trigger] object_halfline_branch(branches@[k], *sup),
        decreases branches@.len() - j,
    {
        if object_schema_is_plain_count(&branches[j]) {
            match &branches[j].kind {
                SchemaNodeKind::Object { property_count, .. } => {
                    if usize_complement_is_within(*property_count, sup_count) {
                        proof {
                            assert(object_halfline_branch(branches@[j as int], *sup));
                            lemma_object_halfline_sound(branches@, *sup, j as int);
                        }
                        return true;
                    }
                },
                _ => {},
            }
        }
        j = j + 1;
    }
    false
}

/// Law: with every non-object type covered and an object half-line branch,
/// every value outside the union is an object in `sup`.
proof fn lemma_object_halfline_sound(branches: Seq<SchemaNode>, sup: SchemaNode, j: int)
    requires
        other_types_covered(branches, JSON_TYPE_OBJECT),
        plain_count_object(sup),
        0 <= j < branches.len(),
        object_halfline_branch(branches[j], sup),
    ensures
        forall|v: JsonValue, rx: spec_fn(Seq<char>, Seq<char>) -> bool|
            !union_accepts(branches, v, rx) ==> #[trigger] accepts(sup, v, rx),
{
    assert forall|v: JsonValue, rx: spec_fn(Seq<char>, Seq<char>) -> bool|
        !union_accepts(branches, v, rx) implies #[trigger] accepts(sup, v, rx) by {
        if json_type_bit(v) != JSON_TYPE_OBJECT {
            lemma_other_types_accepted(branches, JSON_TYPE_OBJECT, v, rx);
        } else {
            let members = v->Object_0;
            lemma_plain_count_object_accepts(branches[j], members, rx);
            lemma_plain_count_object_accepts(sup, members, rx);
            assert(!accepts(branches[j], v, rx));
            lemma_usize_complement_within(branches[j].kind->property_count, sup.kind->property_count, members@.len() as int);
        }
    }
}

/// A string schema constrained by its length alone: no pattern, format or
/// enumeration.
pub open spec fn plain_length_string(s: SchemaNode) -> bool {
    s.kind matches SchemaNodeKind::String { pattern, format, enumeration, .. } && pattern is None && format is None
        && enumeration is None
}

/// A plain string branch whose length half-line has its complement in the
/// plain string `sup`.
pub open spec fn string_halfline_branch(b: SchemaNode, sup: SchemaNode) -> bool {
    plain_length_string(b) && u64_complement_within(b.kind->length, sup.kind->length)
}

/// The test `negated_untyped_string_length_halfline_subset_of` performs.
pub open spec fn string_halfline_cover(branches: Seq<SchemaNode>, sup: SchemaNode) -> bool {
    &&& other_types_covered(branches, JSON_TYPE_STRING)
    &&& plain_length_string(sup)
    &&& exists|j: int| 0 <= j < branches.len() && #[trigger] string_halfline_branch(branches[j], sup)
}

/// Whether `not anyOf(branches)` is a subset of `sup`, for string lengths
/// (see `negated_untyped_array_count_halfline_subset_of`).
pub fn negated_untyped_string_length_halfline_subset_of(branches: &[SchemaNode], sup: &SchemaNode) -> (r: bool)
    ensures
        r == string_halfline_cover(branches@, *sup),
        r ==> forall|v: JsonValue, rx: spec_fn(Seq<char>, Seq<char>) -> bool|
            !union_accepts(branches@, v, rx) ==> #[trigger] accepts(*sup, v, rx),
{
    if !other_types_covered_exec(branches, JSON_TYPE_STRING) {
        return false;
    }
    let sup_length = match &sup.kind {
        SchemaNodeKind::String { length, pattern: None, format: None, enumeration: None } => length,
        _ => return false,
    };
    let mut j: usize = 0;
    while j < branches.len()
        invariant
            j <= branches@.len(),
            other_types_covered(branches@, JSON_TYPE_STRING),
            plain_length_string(*sup),
            sup.kind->length == *sup_length,
            forall|k: int| 0 <= k < j ==> !#[trigger] string_halfline_branch(branches@[k], *sup),
        decreases branches@.len() - j,
    {
        match &branches[j].kind {
            SchemaNodeKind::String { length, pattern: None, format: None, enumeration: None } => {
                if u64_complement_is_within(*length, sup_length) {
                    proof {
                        lemma_string_halfline_sound(branches@, *sup, j as int);
                    }
                    return true;
                }
            },
            _ => {},
        }
        j = j + 1;
    }
    false
}

/// Law: with every non-string type covered and a string half-line branch,
/// every value outside the union is a string in `sup`.
proof fn lemma_string_halfline_sound(branches: Seq<SchemaNode>, sup: SchemaNode, j: int)
    requires
        other_types_covered(branches, JSON_TYPE_STRING),
        plain_length_string(sup),
        0 <= j < branches.len(),
        string_halfline_branch(branches[j], sup),
    ensures
        forall|v: JsonValue, rx: spec_fn(Seq<char>, Seq<char>) -> bool|
            !union_accepts(branches, v, rx) ==> #[trigger] accepts(sup, v, rx),
{
    assert forall|v: JsonValue, rx: spec_fn(Seq<char>, Seq<char>) -> bool|
        !union_accepts(branches, v, rx) implies #[trigger] accepts(sup, v, rx) by {
        if json_type_bit(v) != JSON_TYPE_STRING {
            lemma_other_types_accepted(branches, JSON_TYPE_STRING, v, rx);
        } else {
            let t = v->String_0;
            assert(!accepts(branches[j], v, rx));
            lemma_u64_complement_within(branches[j].kind->length, sup.kind->length, t@.len() as int);
        }
    }
}

/// An end with its inclusion flipped: the other side of it.
pub open spec fn flipped(b: BoundView) -> BoundView {
    (b.0, !b.1, b.2)
}

/// The range outside a number half-line: below a lower end, above an upper
/// end; `None` for a range bounded on both sides or on neither.
pub open spec fn halfline_complement_view(bounds: NumberBounds) -> Option<IntervalView> {
    match (number_bound_view(bounds.lower), number_bound_view(bounds.upper)) {
        (Some(l), None) => Some((None, Some(flipped(l)), false)),
        (None, Some(u)) => Some((Some(flipped(u)), None, false)),
        _ => None,
    }
}

/// A plain number branch (no `multipleOf`, no enumeration) bounded on one
/// side, whose other side lies in the range `sup_range`.
pub open spec fn number_halfline_branch(b: SchemaNode, sup_range: IntervalView) -> bool {
    b.kind matches SchemaNodeKind::Number { bounds, multiple_of, enumeration }
        && multiple_of is None && enumeration is None
        && (halfline_complement_view(bounds) matches Some(c) && contains_view(sup_range, c))
}

/// The test `negated_untyped_numeric_halfline_subset_of` performs.
pub open spec fn number_halfline_cover(branches: Seq<SchemaNode>, sup: SchemaNode) -> bool {
    &&& other_types_covered(branches, JSON_TYPE_NUMBER)
    &&& sup.kind matches SchemaNodeKind::Number { multiple_of, enumeration, .. } && multiple_of is None && enumeration is None
    &&& numeric_bound(sup) is Some
    &&& exists|j: int| 0 <= j < branches.len() && #[trigger] number_halfline_branch(branches[j], numeric_bound(sup)->0)
}

/// Whether `not anyOf(branches)` is a subset of `sup`: the branches take
/// every non-number value wholesale, `sup` is a number schema without
/// `multipleOf` or enumeration, and a plain number branch bounded on one
/// side leaves a half-line inside `sup`'s range.
pub fn negated_untyped_numeric_halfline_subset_of(branches: &[SchemaNode], sup: &SchemaNode) -> (r: bool)
    ensures
        r == number_halfline_cover(branches@, *sup),
        r ==> forall|v: JsonValue, rx: spec_fn(Seq<char>, Seq<char>) -> bool|
            !union_accepts(branches@, v, rx) ==> #[trigger] accepts(*sup, v, rx),
{
    if !other_types_covered_exec(branches, JSON_TYPE_NUMBER) {
        return false;
    }
    match &sup.kind {
        SchemaNodeKind::Number { multiple_of: None, enumeration: None, .. } => {},
        _ => return false,
    }
    let sup_interval = match numeric_interval_bound(sup) {
        Some(iv) => iv,
        None => return false,
    };
    let mut j: usize = 0;
    while j < branches.len()
        invariant
            j <= branches@.len(),
            other_types_covered(branches@, JSON_TYPE_NUMBER),
            sup.kind matches SchemaNodeKind::Number { multiple_of, enumeration, .. } && multiple_of is None && enumeration is None,
            numeric_bound(*sup) == Some(interval_view(sup_interval)),
            forall|k: int| 0 <= k < j ==> !#[trigger] number_halfline_branch(branches@[k], interval_view(sup_interval)),
        decreases branches@.len() - j,
    {
        match &branches[j].kind {
            SchemaNodeKind::Number { bounds, multiple_of: None, enumeration: None } => {
                let lower = interval_bound_from(bounds.lower);
                let upper = interval_bound_from(bounds.upper);
                let complement = match (lower, upper) {
                    (Some(l), None) => Some(NumericInterval {
                        lower: None,
                        upper: Some(NumericIntervalBound { value: l.value, inclusive: !l.inclusive }),
                        empty: false,
                    }),
                    (None, Some(u)) => Some(NumericInterval {
                        lower: Some(NumericIntervalBound { value: u.value, inclusive: !u.inclusive }),
                        upper: None,
                        empty: false,
                    }),
                    _ => None,
                };
                match complement {
                    Some(c) => {
                        proof {
                            assert(halfline_complement_view(*bounds) == Some(interval_view(c)));
                        }
                        if numeric_interval_contains(sup_interval, c) {
                            proof {
                                assert(numeric_bound(*sup)->0 == interval_view(sup_interval));
                                assert(number_halfline_branch(branches@[j as int], numeric_bound(*sup)->0));
                                lemma_number_halfline_sound(branches@, *sup, j as int);
                            }
                            return true;
                        }
                    },
                    None => {},
                }
            },
            _ => {},
        }
        j = j + 1;
    }
    false
}

/// Law: with every non-number type covered and a number half-line branch,
/// every value outside the union is a number in `sup`.
proof fn lemma_number_halfline_sound(branches: Seq<SchemaNode>, sup: SchemaNode, j: int)
    requires
        other_types_covered(branches, JSON_TYPE_NUMBER),
        sup.kind matches SchemaNodeKind::Number { multiple_of, enumeration, .. } && multiple_of is None && enumeration is None,
        numeric_bound(sup) is Some,
        0 <= j < branches.len(),
        number_halfline_branch(branches[j], numeric_bound(sup)->0),
    ensures
        forall|v: JsonValue, rx: spec_fn(Seq<char>, Seq<char>) -> bool|
            !union_accepts(branches, v, rx) ==> #[trigger] accepts(sup, v, rx),
{
    assert forall|v: JsonValue, rx: spec_fn(Seq<char>, Seq<char>) -> bool|
        !union_accepts(branches, v, rx) implies #[trigger] accepts(sup, v, rx) by {
        if json_type_bit(v) != JSON_TYPE_NUMBER {
            lemma_other_types_accepted(branches, JSON_TYPE_NUMBER, v, rx);
        } else {
            let n = v->Number_0;
            let x = number_rational(n);
            lemma_number_denominator(n);
            assert(!accepts(branches[j], v, rx));
            let bounds = branches[j].kind->Number_bounds;
            let sup_bounds = sup.kind->Number_bounds;
            lemma_number_bound_admits(bounds.lower, n);
            lemma_number_bound_admits(bounds.upper, n);
            lemma_number_bound_admits(sup_bounds.lower, n);
            lemma_number_bound_admits(sup_bounds.upper, n);
            let c = halfline_complement_view(bounds)->0;
            assert(interval_admits(c, x));
            lemma_contains_sound(numeric_bound(sup)->0, c, x);
        }
    }
}

} // verus!
