//! Universal unions by counting: an `anyOf` whose branches accept every
//! value of the other JSON types wholesale, and whose plain string, array or
//! object branches together cover every length or count.

use vstd::prelude::*;
use crate::json::{JsonValue, JSON_TYPE_NULL, JSON_TYPE_BOOL, JSON_TYPE_NUMBER, JSON_TYPE_STRING, JSON_TYPE_ARRAY,
    JSON_TYPE_OBJECT, json_type_bit};
use crate::schema::{SchemaNode, SchemaNodeKind, count_in_range};
use crate::semantics::accepts;
use crate::bits::is_type_bit;
use crate::types::{obviously_accepts_type, lemma_type_facts_sound, lemma_trivially_universal_accepts};
use crate::covers::{some_branch_obviously_accepts, any_branch_obviously_accepts};
use crate::shape::{plain_count_array, plain_count_object, array_schema_is_plain_count, object_schema_is_plain_count};
use crate::intervals::{covered_u64, covered_usize, u64_intervals_cover_nonnegative, usize_intervals_cover_nonnegative};

verus! {

/// Whether some branch accepts `v`: what an `anyOf` of the branches accepts.
pub open spec fn union_accepts(branches: Seq<SchemaNode>, v: JsonValue, rx: spec_fn(Seq<char>, Seq<char>) -> bool) -> bool {
    exists|i: int| 0 <= i < branches.len() && accepts(#[trigger] branches[i], v, rx)
}

/// Whether the count `n` lies in the interval `(min, max)`.
pub open spec fn in_u64_interval(iv: (u64, Option<u64>), n: int) -> bool {
    count_in_range(n, iv.0 as int, match iv.1 { Some(m) => Some(m as int), None => None })
}

/// Whether the count `n` lies in the interval `(min, max)`.
pub open spec fn in_usize_interval(iv: (usize, Option<usize>), n: int) -> bool {
    count_in_range(n, iv.0 as int, match iv.1 { Some(m) => Some(m as int), None => None })
}

/// Whether `iv` is the length range of a plain string schema (no pattern,
/// format or enumeration) reached from `s` through nested `anyOf`s.
pub open spec fn string_interval_of(s: SchemaNode, iv: (u64, Option<u64>)) -> bool
    decreases s,
{
    match s.kind {
        SchemaNodeKind::AnyOf(children) => exists|i: int| 0 <= i < children@.len() && string_interval_of(#[trigger] children@[i], iv),
        SchemaNodeKind::String { length, pattern, format, enumeration } =>
            pattern is None && format is None && enumeration is None && iv == (length.min, length.max),
        _ => false,
    }
}

/// Whether `iv` is the item-count range of a plain-count array schema
/// reached from `s` through nested `anyOf`s.
pub open spec fn array_interval_of(s: SchemaNode, iv: (u64, Option<u64>)) -> bool
    decreases s,
{
    match s.kind {
        SchemaNodeKind::AnyOf(children) => exists|i: int| 0 <= i < children@.len() && array_interval_of(#[trigger] children@[i], iv),
        SchemaNodeKind::Array { item_count, .. } => plain_count_array(s) && iv == (item_count.min, item_count.max),
        _ => false,
    }
}

/// Whether `iv` is, for an object schema reached from `s` through nested
/// `anyOf`s, its property-count range when it is a plain-count schema, or
/// the single count 0 when it accepts the empty object (no `required`, no
/// enumeration, no positive `minProperties`).
pub open spec fn object_interval_of(s: SchemaNode, iv: (usize, Option<usize>)) -> bool
    decreases s,
{
    match s.kind {
        SchemaNodeKind::AnyOf(children) => exists|i: int| 0 <= i < children@.len() && object_interval_of(#[trigger] children@[i], iv),
        SchemaNodeKind::Object { required, property_count, enumeration, .. } => if plain_count_object(s) {
            iv == (property_count.min, property_count.max)
        } else {
            required@.len() == 0 && enumeration is None && property_count.min == 0 && iv == (0usize, Some(0usize))
        },
        _ => false,
    }
}

/// A schema accepts every string whose length lies in one of its plain
/// string intervals.
proof fn lemma_string_interval_accepts(s: SchemaNode, iv: (u64, Option<u64>), t: String, rx: spec_fn(Seq<char>, Seq<char>) -> bool)
    requires
        string_interval_of(s, iv),
        in_u64_interval(iv, t@.len() as int),
    ensures
        accepts(s, JsonValue::String(t), rx),
    decreases s,
{
    match s.kind {
        SchemaNodeKind::AnyOf(children) => {
            let i = choose|i: int| 0 <= i < children@.len() && string_interval_of(#[trigger] children@[i], iv);
            lemma_string_interval_accepts(children@[i], iv, t, rx);
        },
        _ => {},
    }
}

/// A schema accepts every array whose length lies in one of its plain
/// count intervals.
proof fn lemma_array_interval_accepts(s: SchemaNode, iv: (u64, Option<u64>), items: Vec<JsonValue>, rx: spec_fn(Seq<char>, Seq<char>) -> bool)
    requires
        array_interval_of(s, iv),
        in_u64_interval(iv, items@.len() as int),
    ensures
        accepts(s, JsonValue::Array(items), rx),
    decreases s,
{
    match s.kind {
        SchemaNodeKind::AnyOf(children) => {
            let i = choose|i: int| 0 <= i < children@.len() && array_interval_of(#[trigger] children@[i], iv);
            lemma_array_interval_accepts(children@[i], iv, items, rx);
        },
        SchemaNodeKind::Array { items: item_schema, .. } => {
            assert forall|i: int| 0 <= i < items@.len() implies accepts(*item_schema, #[trigger] items@[i], rx) by {
                lemma_trivially_universal_accepts(*item_schema, items@[i], rx);
            }
        },
        _ => {},
    }
}

/// A schema accepts every object whose size lies in one of its object
/// intervals.
proof fn lemma_object_interval_accepts(s: SchemaNode, iv: (usize, Option<usize>), members: Vec<(String, JsonValue)>, rx: spec_fn(Seq<char>, Seq<char>) -> bool)
    requires
        object_interval_of(s, iv),
        in_usize_interval(iv, members@.len() as int),
    ensures
        accepts(s, JsonValue::Object(members), rx),
    decreases s,
{
    match s.kind {
        SchemaNodeKind::AnyOf(children) => {
            let i = choose|i: int| 0 <= i < children@.len() && object_interval_of(#[trigger] children@[i], iv);
            lemma_object_interval_accepts(children@[i], iv, members, rx);
        },
        SchemaNodeKind::Object { additional, property_names, .. } => {
            assert forall|i: int| 0 <= i < members@.len() implies accepts(*additional, (#[trigger] members@[i]).1, rx) by {
                lemma_trivially_universal_accepts(*additional, members@[i].1, rx);
            }
            assert forall|i: int| 0 <= i < members@.len() implies accepts(*property_names, JsonValue::String((#[trigger] members@[i]).0), rx) by {
                lemma_trivially_universal_accepts(*property_names, JsonValue::String(members@[i].0), rx);
            }
        },
        _ => {},
    }
}

/// Whether every JSON type other than `bit` is accepted wholesale by some
/// branch.
pub open spec fn other_types_covered(branches: Seq<SchemaNode>, bit: u8) -> bool {
    forall|t: u8| is_type_bit(t) && t != bit ==> #[trigger] some_branch_obviously_accepts(branches, t)
}

/// Checks `other_types_covered` one type at a time.
pub(crate) fn other_types_covered_exec(branches: &[SchemaNode], bit: u8) -> (r: bool)
    requires
        is_type_bit(bit),
    ensures
        r == other_types_covered(branches@, bit),
{
    let r = (bit == JSON_TYPE_NULL || any_branch_obviously_accepts(branches, JSON_TYPE_NULL))
        && (bit == JSON_TYPE_BOOL || any_branch_obviously_accepts(branches, JSON_TYPE_BOOL))
        && (bit == JSON_TYPE_NUMBER || any_branch_obviously_accepts(branches, JSON_TYPE_NUMBER))
        && (bit == JSON_TYPE_STRING || any_branch_obviously_accepts(branches, JSON_TYPE_STRING))
        && (bit == JSON_TYPE_ARRAY || any_branch_obviously_accepts(branches, JSON_TYPE_ARRAY))
        && (bit == JSON_TYPE_OBJECT || any_branch_obviously_accepts(branches, JSON_TYPE_OBJECT));
    proof {
        if r {
            assert forall|t: u8| is_type_bit(t) && t != bit implies #[trigger] some_branch_obviously_accepts(branches@, t) by {}
        }
    }
    r
}

/// Appends the plain string intervals of `schema` to `out`.
fn collect_string_intervals(schema: &SchemaNode, out: &mut Vec<(u64, Option<u64>)>)
    ensures
        final(out)@.len() >= old(out)@.len(),
        forall|k: int| 0 <= k < old(out)@.len() ==> final(out)@[k] == old(out)@[k],
        forall|k: int| old(out)@.len() <= k < final(out)@.len() ==> string_interval_of(*schema, #[trigger] final(out)@[k]),
        forall|iv: (u64, Option<u64>)| #[trigger] string_interval_of(*schema, iv)
            ==> exists|k: int| old(out)@.len() <= k < final(out)@.len() && final(out)@[k] == iv,
    decreases *schema,
{
    let ghost start = out@;
    match &schema.kind {
        SchemaNodeKind::AnyOf(children) => {
            let mut i: usize = 0;
            while i < children.len()
                invariant
                    i <= children@.len(),
                    schema.kind == SchemaNodeKind::AnyOf(*children),
                    out@.len() >= start.len(),
                    forall|k: int| 0 <= k < start.len() ==> out@[k] == start[k],
                    forall|k: int| #![trigger out@[k]] start.len() <= k < out@.len() ==> exists|j: int| 0 <= j < i
                        && string_interval_of(#[trigger] children@[j], out@[k]),
                    forall|j: int, iv: (u64, Option<u64>)| 0 <= j < i && #[trigger] string_interval_of(children@[j], iv)
                        ==> exists|k: int| start.len() <= k < out@.len() && out@[k] == iv,
                decreases children@.len() - i,
            {
                proof {
                    assert(decreases_to!(*schema => schema.kind));
                    assert(decreases_to!(schema.kind => schema.kind->AnyOf_0));
                    assert(decreases_to!(*children => children[i as int]));
                }
                let ghost before = out@;
                collect_string_intervals(&children[i], out);
                proof {
                    assert forall|k: int| #![trigger out@[k]] start.len() <= k < out@.len() implies exists|j: int| 0 <= j < i + 1
                        && string_interval_of(#[trigger] children@[j], out@[k]) by {
                        if k < before.len() {
                            assert(out@[k] == before[k]);
                        } else {
                            assert(string_interval_of(children@[i as int], out@[k]));
                        }
                    }
                    assert forall|j: int, iv: (u64, Option<u64>)| 0 <= j < i + 1 && #[trigger] string_interval_of(children@[j], iv)
                        implies exists|k: int| start.len() <= k < out@.len() && out@[k] == iv by {
                        if j < i {
                            let k = choose|k: int| start.len() <= k < before.len() && before[k] == iv;
                            assert(out@[k] == before[k]);
                        }
                    }
                }
                i = i + 1;
            }
            proof {
                assert(schema.kind->AnyOf_0 == *children);
                assert forall|k: int| start.len() <= k < out@.len() implies string_interval_of(*schema, #[trigger] out@[k]) by {
                    let j = choose|j: int| 0 <= j < children@.len() && string_interval_of(#[trigger] children@[j], out@[k]);
                    assert(string_interval_of(schema.kind->AnyOf_0@[j], out@[k]));
                }
                assert forall|iv: (u64, Option<u64>)| #[trigger] string_interval_of(*schema, iv)
                    implies exists|k: int| start.len() <= k < out@.len() && out@[k] == iv by {
                    let j = choose|j: int| 0 <= j < schema.kind->AnyOf_0@.len() && string_interval_of(#[trigger] schema.kind->AnyOf_0@[j], iv);
                    assert(string_interval_of(children@[j], iv));
                }
            }
        },
        SchemaNodeKind::String { length, pattern, format, enumeration } => {
            if pattern.is_none() && format.is_none() && enumeration.is_none() {
                out.push((length.min, length.max));
                proof {
                    assert(out@[start.len() as int] == (length.min, length.max));
                }
            }
        },
        _ => {},
    }
}

/// Whether a plain string interval of some branch holds the length `n`.
pub open spec fn string_length_covered(branches: Seq<SchemaNode>, n: int) -> bool {
    exists|i: int, iv: (u64, Option<u64>)| 0 <= i < branches.len()
        && #[trigger] string_interval_of(branches[i], iv) && in_u64_interval(iv, n)
}

/// The test `any_of_string_length_cover_is_universal` performs.
pub open spec fn string_length_cover(branches: Seq<SchemaNode>) -> bool {
    &&& other_types_covered(branches, JSON_TYPE_STRING)
    &&& forall|n: int| n >= 0 ==> #[trigger] string_length_covered(branches, n)
}

/// Whether an `anyOf` of `branches` accepts every value: the non-string
/// types are each accepted wholesale by a branch, and the plain string
/// branches cover every string length.
pub fn any_of_string_length_cover_is_universal(branches: &[SchemaNode]) -> (r: bool)
    ensures
        r == string_length_cover(branches@),
        r ==> forall|v: JsonValue, rx: spec_fn(Seq<char>, Seq<char>) -> bool| #[trigger] union_accepts(branches@, v, rx),
{
    if !other_types_covered_exec(branches, JSON_TYPE_STRING) {
        return false;
    }
    let mut intervals: Vec<(u64, Option<u64>)> = Vec::new();
    let mut i: usize = 0;
    while i < branches.len()
        invariant
            i <= branches@.len(),
            forall|k: int| #![trigger intervals@[k]] 0 <= k < intervals@.len() ==> exists|j: int| 0 <= j < i
                && string_interval_of(#[trigger] branches@[j], intervals@[k]),
            forall|j: int, iv: (u64, Option<u64>)| 0 <= j < i && #[trigger] string_interval_of(branches@[j], iv)
                ==> exists|k: int| 0 <= k < intervals@.len() && intervals@[k] == iv,
        decreases branches@.len() - i,
    {
        let ghost before = intervals@;
        collect_string_intervals(&branches[i], &mut intervals);
        proof {
            assert forall|k: int| #![trigger intervals@[k]] 0 <= k < intervals@.len() implies exists|j: int| 0 <= j < i + 1
                && string_interval_of(#[trigger] branches@[j], intervals@[k]) by {
                if k < before.len() {
                    assert(intervals@[k] == before[k]);
                } else {
                    assert(string_interval_of(branches@[i as int], intervals@[k]));
                }
            }
            assert forall|j: int, iv: (u64, Option<u64>)| 0 <= j < i + 1 && #[trigger] string_interval_of(branches@[j], iv)
                implies exists|k: int| 0 <= k < intervals@.len() && intervals@[k] == iv by {
                if j < i {
                    let k = choose|k: int| 0 <= k < before.len() && before[k] == iv;
                    assert(intervals@[k] == before[k]);
                }
            }
        }
        i = i + 1;
    }
    let r = u64_intervals_cover_nonnegative(intervals.as_slice());
    proof {
        assert forall|n: int| #![trigger covered_u64(intervals@, n)] #![trigger string_length_covered(branches@, n)]
            n >= 0 implies (covered_u64(intervals@, n) <==> string_length_covered(branches@, n)) by {
            if covered_u64(intervals@, n) {
                let k = choose|k: int| 0 <= k < intervals@.len() && count_in_range(n, (#[trigger] intervals@[k]).0 as int,
                    match intervals@[k].1 { Some(m) => Some(m as int), None => None });
                let j = choose|j: int| 0 <= j < branches@.len() && string_interval_of(#[trigger] branches@[j], intervals@[k]);
                assert(in_u64_interval(intervals@[k], n));
            }
            if exists|j: int, iv: (u64, Option<u64>)| 0 <= j < branches@.len()
                && #[trigger] string_interval_of(branches@[j], iv) && in_u64_interval(iv, n) {
                let (j, iv) = choose|j: int, iv: (u64, Option<u64>)| 0 <= j < branches@.len()
                    && #[trigger] string_interval_of(branches@[j], iv) && in_u64_interval(iv, n);
                let k = choose|k: int| 0 <= k < intervals@.len() && intervals@[k] == iv;
                assert(count_in_range(n, (intervals@[k]).0 as int, match intervals@[k].1 { Some(m) => Some(m as int), None => None }));
            }
        }
        assert forall|v: JsonValue, rx: spec_fn(Seq<char>, Seq<char>) -> bool| r
            implies #[trigger] union_accepts(branches@, v, rx) by {
            let t = json_type_bit(v);
            assert(is_type_bit(t));
            if t == JSON_TYPE_STRING {
                let text = v->String_0;
                let n = text@.len() as int;
                assert(covered_u64(intervals@, n));
                assert(string_length_covered(branches@, n));
                let (j, iv) = choose|j: int, iv: (u64, Option<u64>)| 0 <= j < branches@.len()
                    && #[trigger] string_interval_of(branches@[j], iv) && in_u64_interval(iv, n);
                lemma_string_interval_accepts(branches@[j], iv, text, rx);
            } else {
                assert(some_branch_obviously_accepts(branches@, t));
                let j = choose|j: int| 0 <= j < branches@.len() && obviously_accepts_type(#[trigger] branches@[j], t);
                lemma_type_facts_sound(branches@[j], v, rx);
            }
        }
    }
    r
}

/// Appends the plain-count array intervals of `schema` to `out`.
fn collect_array_intervals(schema: &SchemaNode, out: &mut Vec<(u64, Option<u64>)>)
    ensures
        final(out)@.len() >= old(out)@.len(),
        forall|k: int| 0 <= k < old(out)@.len() ==> final(out)@[k] == old(out)@[k],
        forall|k: int| old(out)@.len() <= k < final(out)@.len() ==> array_interval_of(*schema, #[trigger] final(out)@[k]),
        forall|iv: (u64, Option<u64>)| #[trigger] array_interval_of(*schema, iv)
            ==> exists|k: int| old(out)@.len() <= k < final(out)@.len() && final(out)@[k] == iv,
    decreases *schema,
{
    let ghost start = out@;
    match &schema.kind {
        SchemaNodeKind::AnyOf(children) => {
            let mut i: usize = 0;
            while i < children.len()
                invariant
                    i <= children@.len(),
                    schema.kind == SchemaNodeKind::AnyOf(*children),
                    out@.len() >= start.len(),
                    forall|k: int| 0 <= k < start.len() ==> out@[k] == start[k],
                    forall|k: int| #![trigger out@[k]] start.len() <= k < out@.len() ==> exists|j: int| 0 <= j < i
                        && array_interval_of(#[trigger] children@[j], out@[k]),
                    forall|j: int, iv: (u64, Option<u64>)| 0 <= j < i && #[trigger] array_interval_of(children@[j], iv)
                        ==> exists|k: int| start.len() <= k < out@.len() && out@[k] == iv,
                decreases children@.len() - i,
            {
                proof {
                    assert(decreases_to!(*schema => schema.kind));
                    assert(decreases_to!(schema.kind => schema.kind->AnyOf_0));
                    assert(decreases_to!(*children => children[i as int]));
                }
                let ghost before = out@;
                collect_array_intervals(&children[i], out);
                proof {
                    assert forall|k: int| #![trigger out@[k]] start.len() <= k < out@.len() implies exists|j: int| 0 <= j < i + 1
                        && array_interval_of(#[trigger] children@[j], out@[k]) by {
                        if k < before.len() {
                            assert(out@[k] == before[k]);
                        } else {
                            assert(array_interval_of(children@[i as int], out@[k]));
                        }
                    }
                    assert forall|j: int, iv: (u64, Option<u64>)| 0 <= j < i + 1 && #[trigger] array_interval_of(children@[j], iv)
                        implies exists|k: int| start.len() <= k < out@.len() && out@[k] == iv by {
                        if j < i {
                            let k = choose|k: int| start.len() <= k < before.len() && before[k] == iv;
                            assert(out@[k] == before[k]);
                        }
                    }
                }
                i = i + 1;
            }
            proof {
                assert(schema.kind->AnyOf_0 == *children);
                assert forall|k: int| start.len() <= k < out@.len() implies array_interval_of(*schema, #[trigger] out@[k]) by {
                    let j = choose|j: int| 0 <= j < children@.len() && array_interval_of(#[trigger] children@[j], out@[k]);
                    assert(array_interval_of(schema.kind->AnyOf_0@[j], out@[k]));
                }
                assert forall|iv: (u64, Option<u64>)| #[trigger] array_interval_of(*schema, iv)
                    implies exists|k: int| start.len() <= k < out@.len() && out@[k] == iv by {
                    let j = choose|j: int| 0 <= j < schema.kind->AnyOf_0@.len() && array_interval_of(#[trigger] schema.kind->AnyOf_0@[j], iv);
                    assert(array_interval_of(children@[j], iv));
                }
            }
        },
        SchemaNodeKind::Array { item_count, .. } => {
            if array_schema_is_plain_count(schema) {
                out.push((item_count.min, item_count.max));
                proof {
                    assert(out@[start.len() as int] == (item_count.min, item_count.max));
                }
            }
        },
        _ => {},
    }
}

/// Whether a plain-count array interval of some branch holds the count `n`.
pub open spec fn array_count_covered(branches: Seq<SchemaNode>, n: int) -> bool {
    exists|i: int, iv: (u64, Option<u64>)| 0 <= i < branches.len()
        && #[trigger] array_interval_of(branches[i], iv) && in_u64_interval(iv, n)
}

/// The test `any_of_array_count_cover_is_universal` performs.
pub open spec fn array_count_cover(branches: Seq<SchemaNode>) -> bool {
    &&& other_types_covered(branches, JSON_TYPE_ARRAY)
    &&& forall|n: int| n >= 0 ==> #[trigger] array_count_covered(branches, n)
}

/// Whether an `anyOf` of `branches` accepts every value: the non-array
/// types are each accepted wholesale by a branch, and the plain-count array
/// branches cover every item count.
pub fn any_of_array_count_cover_is_universal(branches: &[SchemaNode]) -> (r: bool)
    ensures
        r == array_count_cover(branches@),
        r ==> forall|v: JsonValue, rx: spec_fn(Seq<char>, Seq<char>) -> bool| #[trigger] union_accepts(branches@, v, rx),
{
    if !other_types_covered_exec(branches, JSON_TYPE_ARRAY) {
        return false;
    }
    let mut intervals: Vec<(u64, Option<u64>)> = Vec::new();
    let mut i: usize = 0;
    while i < branches.len()
        invariant
            i <= branches@.len(),
            forall|k: int| #![trigger intervals@[k]] 0 <= k < intervals@.len() ==> exists|j: int| 0 <= j < i
                && array_interval_of(#[trigger] branches@[j], intervals@[k]),
            forall|j: int, iv: (u64, Option<u64>)| 0 <= j < i && #[trigger] array_interval_of(branches@[j], iv)
                ==> exists|k: int| 0 <= k < intervals@.len() && intervals@[k] == iv,
        decreases branches@.len() - i,
    {
        let ghost before = intervals@;
        collect_array_intervals(&branches[i], &mut intervals);
        proof {
            assert forall|k: int| #![trigger intervals@[k]] 0 <= k < intervals@.len() implies exists|j: int| 0 <= j < i + 1
                && array_interval_of(#[trigger] branches@[j], intervals@[k]) by {
                if k < before.len() {
                    assert(intervals@[k] == before[k]);
                } else {
                    assert(array_interval_of(branches@[i as int], intervals@[k]));
                }
            }
            assert forall|j: int, iv: (u64, Option<u64>)| 0 <= j < i + 1 && #[trigger] array_interval_of(branches@[j], iv)
                implies exists|k: int| 0 <= k < intervals@.len() && intervals@[k] == iv by {
                if j < i {
                    let k = choose|k: int| 0 <= k < before.len() && before[k] == iv;
                    assert(intervals@[k] == before[k]);
                }
            }
        }
        i = i + 1;
    }
    let r = u64_intervals_cover_nonnegative(intervals.as_slice());
    proof {
        assert forall|n: int| #![trigger covered_u64(intervals@, n)] #![trigger array_count_covered(branches@, n)]
            n >= 0 implies (covered_u64(intervals@, n) <==> array_count_covered(branches@, n)) by {
            if covered_u64(intervals@, n) {
                let k = choose|k: int| 0 <= k < intervals@.len() && count_in_range(n, (#[trigger] intervals@[k]).0 as int,
                    match intervals@[k].1 { Some(m) => Some(m as int), None => None });
                let j = choose|j: int| 0 <= j < branches@.len() && array_interval_of(#[trigger] branches@[j], intervals@[k]);
                assert(in_u64_interval(intervals@[k], n));
            }
            if exists|j: int, iv: (u64, Option<u64>)| 0 <= j < branches@.len()
                && #[trigger] array_interval_of(branches@[j], iv) && in_u64_interval(iv, n) {
                let (j, iv) = choose|j: int, iv: (u64, Option<u64>)| 0 <= j < branches@.len()
                    && #[trigger] array_interval_of(branches@[j], iv) && in_u64_interval(iv, n);
                let k = choose|k: int| 0 <= k < intervals@.len() && intervals@[k] == iv;
                assert(count_in_range(n, (intervals@[k]).0 as int, match intervals@[k].1 { Some(m) => Some(m as int), None => None }));
            }
        }
        assert forall|v: JsonValue, rx: spec_fn(Seq<char>, Seq<char>) -> bool| r
            implies #[trigger] union_accepts(branches@, v, rx) by {
            let t = json_type_bit(v);
            assert(is_type_bit(t));
            if t == JSON_TYPE_ARRAY {
                let items = v->Array_0;
                let n = items@.len() as int;
                assert(covered_u64(intervals@, n));
                assert(array_count_covered(branches@, n));
                let (j, iv) = choose|j: int, iv: (u64, Option<u64>)| 0 <= j < branches@.len()
                    && #[trigger] array_interval_of(branches@[j], iv) && in_u64_interval(iv, n);
                lemma_array_interval_accepts(branches@[j], iv, items, rx);
            } else {
                assert(some_branch_obviously_accepts(branches@, t));
                let j = choose|j: int| 0 <= j < branches@.len() && obviously_accepts_type(#[trigger] branches@[j], t);
                lemma_type_facts_sound(branches@[j], v, rx);
            }
        }
    }
    r
}

/// Appends the object count intervals of `schema` to `out`.
fn collect_object_intervals(schema: &SchemaNode, out: &mut Vec<(usize, Option<usize>)>)
    ensures
        final(out)@.len() >= old(out)@.len(),
        forall|k: int| 0 <= k < old(out)@.len() ==> final(out)@[k] == old(out)@[k],
        forall|k: int| old(out)@.len() <= k < final(out)@.len() ==> object_interval_of(*schema, #[trigger] final(out)@[k]),
        forall|iv: (usize, Option<usize>)| #[trigger] object_interval_of(*schema, iv)
            ==> exists|k: int| old(out)@.len() <= k < final(out)@.len() && final(out)@[k] == iv,
    decreases *schema,
{
    let ghost start = out@;
    match &schema.kind {
        SchemaNodeKind::AnyOf(children) => {
            let mut i: usize = 0;
            while i < children.len()
                invariant
                    i <= children@.len(),
                    schema.kind == SchemaNodeKind::AnyOf(*children),
                    out@.len() >= start.len(),
                    forall|k: int| 0 <= k < start.len() ==> out@[k] == start[k],
                    forall|k: int| #![trigger out@[k]] start.len() <= k < out@.len() ==> exists|j: int| 0 <= j < i
                        && object_interval_of(#[trigger] children@[j], out@[k]),
                    forall|j: int, iv: (usize, Option<usize>)| 0 <= j < i && #[trigger] object_interval_of(children@[j], iv)
                        ==> exists|k: int| start.len() <= k < out@.len() && out@[k] == iv,
                decreases children@.len() - i,
            {
                proof {
                    assert(decreases_to!(*schema => schema.kind));
                    assert(decreases_to!(schema.kind => schema.kind->AnyOf_0));
                    assert(decreases_to!(*children => children[i as int]));
                }
                let ghost before = out@;
                collect_object_intervals(&children[i], out);
                proof {
                    assert forall|k: int| #![trigger out@[k]] start.len() <= k < out@.len() implies exists|j: int| 0 <= j < i + 1
                        && object_interval_of(#[trigger] children@[j], out@[k]) by {
                        if k < before.len() {
                            assert(out@[k] == before[k]);
                        } else {
                            assert(object_interval_of(children@[i as int], out@[k]));
                        }
                    }
                    assert forall|j: int, iv: (usize, Option<usize>)| 0 <= j < i + 1 && #[trigger] object_interval_of(children@[j], iv)
                        implies exists|k: int| start.len() <= k < out@.len() && out@[k] == iv by {
                        if j < i {
                            let k = choose|k: int| start.len() <= k < before.len() && before[k] == iv;
                            assert(out@[k] == before[k]);
                        }
                    }
                }
                i = i + 1;
            }
            proof {
                assert(schema.kind->AnyOf_0 == *children);
                assert forall|k: int| start.len() <= k < out@.len() implies object_interval_of(*schema, #[trigger] out@[k]) by {
                    let j = choose|j: int| 0 <= j < children@.len() && object_interval_of(#[trigger] children@[j], out@[k]);
                    assert(object_interval_of(schema.kind->AnyOf_0@[j], out@[k]));
                }
                assert forall|iv: (usize, Option<usize>)| #[trigger] object_interval_of(*schema, iv)
                    implies exists|k: int| start.len() <= k < out@.len() && out@[k] == iv by {
                    let j = choose|j: int| 0 <= j < schema.kind->AnyOf_0@.len() && object_interval_of(#[trigger] schema.kind->AnyOf_0@[j], iv);
                    assert(object_interval_of(children@[j], iv));
                }
            }
        },
        SchemaNodeKind::Object { required, property_count, enumeration, .. } => {
            if object_schema_is_plain_count(schema) {
                out.push((property_count.min, property_count.max));
                proof {
                    assert(out@[start.len() as int] == (property_count.min, property_count.max));
                }
            } else if required.len() == 0 && enumeration.is_none() && property_count.min == 0 {
                out.push((0usize, Some(0usize)));
                proof {
                    assert(out@[start.len() as int] == (0usize, Some(0usize)));
                }
            }
        },
        _ => {},
    }
}

/// Whether an object interval of some branch holds the count `n`.
pub open spec fn object_count_covered(branches: Seq<SchemaNode>, n: int) -> bool {
    exists|i: int, iv: (usize, Option<usize>)| 0 <= i < branches.len()
        && #[trigger] object_interval_of(branches[i], iv) && in_usize_interval(iv, n)
}

/// The test `any_of_object_count_cover_is_universal` performs.
pub open spec fn object_count_cover(branches: Seq<SchemaNode>) -> bool {
    &&& other_types_covered(branches, JSON_TYPE_OBJECT)
    &&& forall|n: int| n >= 0 ==> #[trigger] object_count_covered(branches, n)
}

/// Whether an `anyOf` of `branches` accepts every value: the non-object
/// types are each accepted wholesale by a branch, and the object branches
/// cover every property count.
pub fn any_of_object_count_cover_is_universal(branches: &[SchemaNode]) -> (r: bool)
    ensures
        r == object_count_cover(branches@),
        r ==> forall|v: JsonValue, rx: spec_fn(Seq<char>, Seq<char>) -> bool| #[trigger] union_accepts(branches@, v, rx),
{
    if !other_types_covered_exec(branches, JSON_TYPE_OBJECT) {
        return false;
    }
    let mut intervals: Vec<(usize, Option<usize>)> = Vec::new();
    let mut i: usize = 0;
    while i < branches.len()
        invariant
            i <= branches@.len(),
            forall|k: int| #![trigger intervals@[k]] 0 <= k < intervals@.len() ==> exists|j: int| 0 <= j < i
                && object_interval_of(#[trigger] branches@[j], intervals@[k]),
            forall|j: int, iv: (usize, Option<usize>)| 0 <= j < i && #[trigger] object_interval_of(branches@[j], iv)
                ==> exists|k: int| 0 <= k < intervals@.len() && intervals@[k] == iv,
        decreases branches@.len() - i,
    {
        let ghost before = intervals@;
        collect_object_intervals(&branches[i], &mut intervals);
        proof {
            assert forall|k: int| #![trigger intervals@[k]] 0 <= k < intervals@.len() implies exists|j: int| 0 <= j < i + 1
                && object_interval_of(#[trigger] branches@[j], intervals@[k]) by {
                if k < before.len() {
                    assert(intervals@[k] == before[k]);
                } else {
                    assert(object_interval_of(branches@[i as int], intervals@[k]));
                }
            }
            assert forall|j: int, iv: (usize, Option<usize>)| 0 <= j < i + 1 && #[trigger] object_interval_of(branches@[j], iv)
                implies exists|k: int| 0 <= k < intervals@.len() && intervals@[k] == iv by {
                if j < i {
                    let k = choose|k: int| 0 <= k < before.len() && before[k] == iv;
                    assert(intervals@[k] == before[k]);
                }
            }
        }
        i = i + 1;
    }
    let r = usize_intervals_cover_nonnegative(intervals.as_slice());
    proof {
        assert forall|n: int| #![trigger covered_usize(intervals@, n)] #![trigger object_count_covered(branches@, n)]
            n >= 0 implies (covered_usize(intervals@, n) <==> object_count_covered(branches@, n)) by {
            if covered_usize(intervals@, n) {
                let k = choose|k: int| 0 <= k < intervals@.len() && count_in_range(n, (#[trigger] intervals@[k]).0 as int,
                    match intervals@[k].1 { Some(m) => Some(m as int), None => None });
                let j = choose|j: int| 0 <= j < branches@.len() && object_interval_of(#[trigger] branches@[j], intervals@[k]);
                assert(in_usize_interval(intervals@[k], n));
            }
            if exists|j: int, iv: (usize, Option<usize>)| 0 <= j < branches@.len()
                && #[trigger] object_interval_of(branches@[j], iv) && in_usize_interval(iv, n) {
                let (j, iv) = choose|j: int, iv: (usize, Option<usize>)| 0 <= j < branches@.len()
                    && #[trigger] object_interval_of(branches@[j], iv) && in_usize_interval(iv, n);
                let k = choose|k: int| 0 <= k < intervals@.len() && intervals@[k] == iv;
                assert(count_in_range(n, (intervals@[k]).0 as int, match intervals@[k].1 { Some(m) => Some(m as int), None => None }));
            }
        }
        assert forall|v: JsonValue, rx: spec_fn(Seq<char>, Seq<char>) -> bool| r
            implies #[trigger] union_accepts(branches@, v, rx) by {
            let t = json_type_bit(v);
            assert(is_type_bit(t));
            if t == JSON_TYPE_OBJECT {
                let members = v->Object_0;
                let n = members@.len() as int;
                assert(covered_usize(intervals@, n));
                assert(object_count_covered(branches@, n));
                let (j, iv) = choose|j: int, iv: (usize, Option<usize>)| 0 <= j < branches@.len()
                    && #[trigger] object_interval_of(branches@[j], iv) && in_usize_interval(iv, n);
                lemma_object_interval_accepts(branches@[j], iv, members, rx);
            } else {
                assert(some_branch_obviously_accepts(branches@, t));
                let j = choose|j: int| 0 <= j < branches@.len() && obviously_accepts_type(#[trigger] branches@[j], t);
                lemma_type_facts_sound(branches@[j], v, rx);
            }
        }
    }
    r
}

} // verus!
