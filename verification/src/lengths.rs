//! String lengths: an interval holding the length of every string a schema
//! accepts, read off the schema's shape, and the disjointness, emptiness and
//! containment facts drawn from it.

use vstd::prelude::*;
use crate::json::{JsonValue, json_eq, JSON_TYPE_STRING};
use crate::schema::{SchemaNode, SchemaNodeKind};
use crate::semantics::accepts;
use crate::types::{may_have_type, obviously_accepts_type, possible_json_type_mask, whole_json_types_accepted_mask,
    lemma_type_facts_sound, may_accept_some_type, may_accept_other_type, lemma_possible_mask_tests,
    lemma_type_restriction};
use crate::intervals::{LengthInterval, length_in, length_interval_wf, interval_intersection, interval_hull,
    empty_interval, unbounded_interval, strictly_before, length_interval_strictly_before, interval_contains,
    length_interval_contains};
use crate::shape::{unwrap_singletons, unwrap_singleton_applicators, lemma_unwrap_singletons_accepts};

verus! {

/// The shortest and longest string in the first `n` enumeration values:
/// `Some(None)` when they hold no string, `None` when a length does not fit
/// in `u64`.
pub open spec fn enum_string_lengths(values: Seq<JsonValue>, n: nat) -> Option<Option<(u64, u64)>>
    decreases n,
{
    if n == 0 || n > values.len() {
        Some(None)
    } else {
        match enum_string_lengths(values, (n - 1) as nat) {
            None => None,
            Some(acc) => match values[n - 1] {
                JsonValue::String(t) => if t@.len() <= u64::MAX {
                    let l = t@.len() as u64;
                    Some(Some(match acc {
                        None => (l, l),
                        Some((lo, hi)) => (if lo <= l { lo } else { l }, if hi >= l { hi } else { l }),
                    }))
                } else {
                    None
                },
                _ => Some(acc),
            },
        }
    }
}

/// The bound of a union: `None` when some string branch has no bound,
/// otherwise the hull of the string branches (empty when there is none).
pub open spec fn union_bound(acc: Option<Option<LengthInterval>>) -> Option<LengthInterval> {
    match acc {
        None => None,
        Some(None) => Some(empty_interval()),
        Some(Some(iv)) => Some(iv),
    }
}

/// The string-length interval of a schema, from its shape:
/// - `false` holds no string; a string schema gives its `minLength..=maxLength`;
/// - `const` and `enum` give the lengths of their strings;
/// - `if` with both branches gives the hull of the branch intervals, with
///   one branch only when the condition decides every string;
/// - `allOf` intersects the bounded conjuncts, `anyOf`/`oneOf` take the hull
///   of the branches that may accept strings;
/// - anything else has no bound (`None`).
pub open spec fn string_length_bound(s: SchemaNode) -> Option<LengthInterval>
    decreases s, 0nat,
{
    match s.kind {
        SchemaNodeKind::BoolSchema(b) => if b { None } else { Some(empty_interval()) },
        SchemaNodeKind::String { length, .. } => Some(LengthInterval {
            lower: length.min,
            upper: length.max,
            empty: length.max matches Some(u) && length.min > u,
        }),
        SchemaNodeKind::Const(v) => match v {
            JsonValue::String(t) => if t@.len() <= u64::MAX {
                Some(LengthInterval { lower: t@.len() as u64, upper: Some(t@.len() as u64), empty: false })
            } else {
                None
            },
            _ => Some(empty_interval()),
        },
        SchemaNodeKind::Enum(values) => match enum_string_lengths(values@, values@.len()) {
            None => None,
            Some(None) => Some(empty_interval()),
            Some(Some((lo, hi))) => Some(LengthInterval { lower: lo, upper: Some(hi), empty: false }),
        },
        SchemaNodeKind::IfThenElse { if_schema, then_schema, else_schema } => match (then_schema, else_schema) {
            (Some(t), Some(e)) => match (string_length_bound(*t), string_length_bound(*e)) {
                (Some(a), Some(b)) => Some(interval_hull(a, b)),
                _ => None,
            },
            (Some(t), None) => if obviously_accepts_type(*if_schema, JSON_TYPE_STRING) {
                string_length_bound(*t)
            } else {
                None
            },
            (None, Some(e)) => if !may_have_type(*if_schema, JSON_TYPE_STRING) {
                string_length_bound(*e)
            } else {
                None
            },
            (None, None) => None,
        },
        SchemaNodeKind::AllOf(children) => string_bound_all(children@, children@.len()),
        SchemaNodeKind::AnyOf(children) => union_bound(string_bound_any(children@, children@.len())),
        SchemaNodeKind::OneOf(children) => union_bound(string_bound_any(children@, children@.len())),
        _ => None,
    }
}

/// The intersection of the bounded ones among the first `n` conjuncts
/// (`None` when none is bounded).
pub open spec fn string_bound_all(children: Seq<SchemaNode>, n: nat) -> Option<LengthInterval>
    decreases children, n,
{
    if n == 0 || n > children.len() {
        None
    } else {
        let prev = string_bound_all(children, (n - 1) as nat);
        match string_length_bound(children[n - 1]) {
            None => prev,
            Some(iv) => Some(interval_intersection(
                match prev {
                    None => unbounded_interval(),
                    Some(a) => a,
                },
                iv,
            )),
        }
    }
}

/// The hull over the first `n` branches that may accept strings: `None`
/// when one of them has no bound, `Some(None)` when there is none.
pub open spec fn string_bound_any(children: Seq<SchemaNode>, n: nat) -> Option<Option<LengthInterval>>
    decreases children, n,
{
    if n == 0 || n > children.len() {
        Some(None)
    } else {
        match string_bound_any(children, (n - 1) as nat) {
            None => None,
            Some(acc) => if !may_have_type(children[n - 1], JSON_TYPE_STRING) {
                Some(acc)
            } else {
                match string_length_bound(children[n - 1]) {
                    None => None,
                    Some(iv) => Some(Some(match acc {
                        None => iv,
                        Some(a) => interval_hull(a, iv),
                    })),
                }
            },
        }
    }
}

/// The string-length interval of `schema` (see `string_length_bound`):
/// `None` when the schema's shape gives no bound.
pub fn string_length_interval_bound(schema: &SchemaNode) -> (r: Option<LengthInterval>)
    ensures
        r == string_length_bound(*schema),
    decreases *schema, 1nat,
{
    match &schema.kind {
        SchemaNodeKind::BoolSchema(b) => if *b {
            None
        } else {
            Some(LengthInterval::empty())
        },
        SchemaNodeKind::String { length, .. } => Some(LengthInterval {
            lower: length.min,
            upper: length.max,
            empty: match length.max {
                Some(upper) => length.min > upper,
                None => false,
            },
        }),
        SchemaNodeKind::Const(value) => match value.as_str() {
            Some(text) => {
                let len = text.unicode_len() as u64;
                Some(LengthInterval { lower: len, upper: Some(len), empty: false })
            },
            None => Some(LengthInterval::empty()),
        },
        SchemaNodeKind::Enum(values) => {
            let mut bounds: Option<(u64, u64)> = None;
            let mut i: usize = 0;
            while i < values.len()
                invariant
                    i <= values@.len(),
                    enum_string_lengths(values@, i as nat) == Some(bounds),
                decreases values@.len() - i,
            {
                match values[i].as_str() {
                    Some(text) => {
                        let len = text.unicode_len() as u64;
                        bounds = Some(match bounds {
                            None => (len, len),
                            Some((lo, hi)) => (if lo <= len { lo } else { len }, if hi >= len { hi } else { len }),
                        });
                    },
                    None => {},
                }
                i = i + 1;
            }
            match bounds {
                Some((lower, upper)) => Some(LengthInterval { lower, upper: Some(upper), empty: false }),
                None => Some(LengthInterval::empty()),
            }
        },
        SchemaNodeKind::IfThenElse { if_schema, then_schema, else_schema } => match (then_schema, else_schema) {
            (Some(then_schema), Some(else_schema)) => {
                match (string_length_interval_bound(then_schema), string_length_interval_bound(else_schema)) {
                    (Some(then_interval), Some(else_interval)) => Some(then_interval.hull(else_interval)),
                    _ => None,
                }
            },
            (Some(then_schema), None) => {
                let whole = whole_json_types_accepted_mask(if_schema);
                proof { crate::bits::lemma_single_bits(JSON_TYPE_STRING, JSON_TYPE_STRING); }
                if whole & JSON_TYPE_STRING != 0 {
                    string_length_interval_bound(then_schema)
                } else {
                    None
                }
            },
            (None, Some(else_schema)) => {
                let possible = possible_json_type_mask(if_schema);
                if possible & JSON_TYPE_STRING == 0 {
                    string_length_interval_bound(else_schema)
                } else {
                    None
                }
            },
            (None, None) => None,
        },
        SchemaNodeKind::AllOf(children) => {
            let mut interval = LengthInterval::unbounded();
            let mut saw_bound = false;
            let mut i: usize = 0;
            while i < children.len()
                invariant
                    i <= children@.len(),
                    schema.kind == SchemaNodeKind::AllOf(*children),
                    saw_bound ==> string_bound_all(children@, i as nat) == Some(interval),
                    !saw_bound ==> string_bound_all(children@, i as nat) is None && interval == unbounded_interval(),
                decreases children@.len() - i,
            {
                proof {
                    assert(decreases_to!(*schema => schema.kind));
                    assert(decreases_to!(schema.kind => schema.kind->AllOf_0));
                    assert(decreases_to!(*children => children[i as int]));
                }
                match string_length_interval_bound(&children[i]) {
                    Some(child_interval) => {
                        interval = interval.intersect(child_interval);
                        saw_bound = true;
                    },
                    None => {},
                }
                i = i + 1;
            }
            if saw_bound {
                Some(interval)
            } else {
                None
            }
        },
        SchemaNodeKind::AnyOf(children) => {
            let acc = string_union_bound(schema, children);
            match acc {
                None => None,
                Some(hull) => match hull {
                    Some(iv) => Some(iv),
                    None => Some(LengthInterval::empty()),
                },
            }
        },
        SchemaNodeKind::OneOf(children) => {
            let acc = string_union_bound(schema, children);
            match acc {
                None => None,
                Some(hull) => match hull {
                    Some(iv) => Some(iv),
                    None => Some(LengthInterval::empty()),
                },
            }
        },
        _ => None,
    }
}

/// Once a union fold has met an unbounded string branch, it stays unbounded.
proof fn lemma_string_bound_any_none_persists(children: Seq<SchemaNode>, n: nat, m: nat)
    requires
        n <= m <= children.len(),
        string_bound_any(children, n) is None,
    ensures
        string_bound_any(children, m) is None,
    decreases m - n,
{
    if n < m {
        lemma_string_bound_any_none_persists(children, n, (m - 1) as nat);
    }
}

/// The hull over the string branches of a union `schema` with branches
/// `children` (see `string_bound_any`).
fn string_union_bound(schema: &SchemaNode, children: &Vec<SchemaNode>) -> (r: Option<Option<LengthInterval>>)
    requires
        schema.kind == SchemaNodeKind::AnyOf(*children) || schema.kind == SchemaNodeKind::OneOf(*children),
    ensures
        r == string_bound_any(children@, children@.len()),
    decreases *schema, 0nat,
{
    let mut hull: Option<LengthInterval> = None;
    let mut unknown_string_branch = false;
    let mut i: usize = 0;
    while i < children.len() && !unknown_string_branch
        invariant
            i <= children@.len(),
            schema.kind == SchemaNodeKind::AnyOf(*children) || schema.kind == SchemaNodeKind::OneOf(*children),
            !unknown_string_branch ==> string_bound_any(children@, i as nat) == Some(hull),
            unknown_string_branch ==> string_bound_any(children@, i as nat) is None,
        decreases children@.len() - i,
    {
        proof {
            assert(decreases_to!(*schema => schema.kind));
            if schema.kind == SchemaNodeKind::AnyOf(*children) {
                assert(decreases_to!(schema.kind => schema.kind->AnyOf_0));
            } else {
                assert(decreases_to!(schema.kind => schema.kind->OneOf_0));
            }
            assert(decreases_to!(*children => children[i as int]));
        }
        let possible = possible_json_type_mask(&children[i]);
        proof { crate::bits::lemma_single_bits(JSON_TYPE_STRING, JSON_TYPE_STRING); }
        if possible & JSON_TYPE_STRING == 0 {
            i = i + 1;
        } else {
            match string_length_interval_bound(&children[i]) {
                Some(child_interval) => {
                    hull = Some(match hull {
                        None => child_interval,
                        Some(acc) => acc.hull(child_interval),
                    });
                    i = i + 1;
                },
                None => {
                    unknown_string_branch = true;
                    i = i + 1;
                },
            }
        }
    }
    if unknown_string_branch {
        proof { lemma_string_bound_any_none_persists(children@, i as nat, children@.len()); }
        None
    } else {
        Some(hull)
    }
}

/// What the first `n` enumeration values say of their string lengths.
proof fn lemma_enum_string_lengths(values: Seq<JsonValue>, n: nat)
    requires
        n <= values.len(),
        enum_string_lengths(values, n) is Some,
    ensures
        match enum_string_lengths(values, n)->0 {
            None => forall|i: int| 0 <= i < n ==> !(#[trigger] values[i] is String),
            Some((lo, hi)) => lo <= hi && forall|i: int| 0 <= i < n && (#[trigger] values[i] is String)
                ==> lo <= values[i]->String_0@.len() <= hi,
        },
    decreases n,
{
    if n > 0 {
        lemma_enum_string_lengths(values, (n - 1) as nat);
    }
}

/// Law: every string a schema accepts has its length in the schema's
/// string-length interval, and that interval is well formed.
pub proof fn lemma_string_length_bound_sound(s: SchemaNode, t: String, rx: spec_fn(Seq<char>, Seq<char>) -> bool)
    requires
        string_length_bound(s) is Some,
    ensures
        length_interval_wf(string_length_bound(s)->0),
        accepts(s, JsonValue::String(t), rx) ==> length_in(string_length_bound(s)->0, t@.len() as int),
    decreases s, 0nat,
{
    let v = JsonValue::String(t);
    match s.kind {
        SchemaNodeKind::Const(c) => {
            if accepts(s, v, rx) {
                assert(json_eq(v, c));
            }
        },
        SchemaNodeKind::Enum(values) => {
            lemma_enum_string_lengths(values@, values@.len());
            if accepts(s, v, rx) {
                let i = choose|i: int| 0 <= i < values@.len() && json_eq(v, #[trigger] values@[i]);
                assert(values@[i] is String);
            }
        },
        SchemaNodeKind::IfThenElse { if_schema, then_schema, else_schema } => {
            lemma_type_facts_sound(*if_schema, v, rx);
            match (then_schema, else_schema) {
                (Some(a), Some(b)) => {
                    lemma_string_length_bound_sound(*a, t, rx);
                    lemma_string_length_bound_sound(*b, t, rx);
                },
                (Some(a), None) => {
                    lemma_string_length_bound_sound(*a, t, rx);
                },
                (None, Some(b)) => {
                    lemma_string_length_bound_sound(*b, t, rx);
                },
                (None, None) => {},
            }
        },
        SchemaNodeKind::AllOf(children) => {
            assert(decreases_to!(s => s.kind));
            lemma_string_bound_all_sound(children@, children@.len(), t, rx);
        },
        SchemaNodeKind::AnyOf(children) => {
            lemma_string_bound_any_sound(children@, children@.len(), t, rx);
            if accepts(s, v, rx) {
                let i = choose|i: int| 0 <= i < children@.len() && accepts(#[trigger] children@[i], v, rx);
                assert(accepts(children@[i], v, rx));
            }
        },
        SchemaNodeKind::OneOf(children) => {
            lemma_string_bound_any_sound(children@, children@.len(), t, rx);
            if accepts(s, v, rx) {
                let i = choose|i: int| 0 <= i < children@.len() && accepts(#[trigger] children@[i], v, rx)
                    && forall|j: int| 0 <= j < children@.len() && j != i ==> !accepts(#[trigger] children@[j], v, rx);
                assert(accepts(children@[i], v, rx));
            }
        },
        _ => {},
    }
}

/// The `allOf` fold is sound: a string every conjunct accepts lies in it.
proof fn lemma_string_bound_all_sound(children: Seq<SchemaNode>, n: nat, t: String, rx: spec_fn(Seq<char>, Seq<char>) -> bool)
    requires
        n <= children.len(),
        string_bound_all(children, n) is Some,
    ensures
        length_interval_wf(string_bound_all(children, n)->0),
        (forall|i: int| 0 <= i < n ==> accepts(#[trigger] children[i], JsonValue::String(t), rx))
            ==> length_in(string_bound_all(children, n)->0, t@.len() as int),
    decreases children, n,
{
    let v = JsonValue::String(t);
    let prev = string_bound_all(children, (n - 1) as nat);
    if prev is Some {
        lemma_string_bound_all_sound(children, (n - 1) as nat, t, rx);
    }
    if string_length_bound(children[n - 1]) is Some {
        lemma_string_length_bound_sound(children[n - 1], t, rx);
    }
    if forall|i: int| 0 <= i < n ==> accepts(#[trigger] children[i], v, rx) {
        assert(accepts(children[n - 1], v, rx));
        assert(forall|i: int| 0 <= i < n - 1 ==> accepts(#[trigger] children[i], v, rx));
    }
}

/// The union fold is sound: a string some branch accepts lies in the hull,
/// and with no string branch no branch accepts a string.
proof fn lemma_string_bound_any_sound(children: Seq<SchemaNode>, n: nat, t: String, rx: spec_fn(Seq<char>, Seq<char>) -> bool)
    requires
        n <= children.len(),
        string_bound_any(children, n) is Some,
    ensures
        match string_bound_any(children, n)->0 {
            None => forall|i: int| 0 <= i < n ==> !accepts(#[trigger] children[i], JsonValue::String(t), rx),
            Some(iv) => length_interval_wf(iv) && forall|i: int| 0 <= i < n
                && accepts(#[trigger] children[i], JsonValue::String(t), rx) ==> length_in(iv, t@.len() as int),
        },
    decreases children, n,
{
    let v = JsonValue::String(t);
    if n > 0 {
        lemma_string_bound_any_sound(children, (n - 1) as nat, t, rx);
        lemma_type_facts_sound(children[n - 1], v, rx);
        if may_have_type(children[n - 1], JSON_TYPE_STRING) {
            lemma_string_length_bound_sound(children[n - 1], t, rx);
        }
    }
}

/// The disjointness test on two string-length intervals.
pub open spec fn string_bounds_disjoint(left: SchemaNode, right: SchemaNode) -> bool {
    match (string_length_bound(left), string_length_bound(right)) {
        (Some(a), Some(b)) => a.empty || b.empty || strictly_before(a, b) || strictly_before(b, a),
        _ => false,
    }
}

/// Whether the string-length intervals of two schemas are known and do not
/// overlap; then no string is accepted by both.
pub fn string_length_intervals_are_disjoint(left: &SchemaNode, right: &SchemaNode) -> (r: bool)
    ensures
        r == string_bounds_disjoint(*left, *right),
        r ==> forall|t: String, rx: spec_fn(Seq<char>, Seq<char>) -> bool|
            !(#[trigger] accepts(*left, JsonValue::String(t), rx) && #[trigger] accepts(*right, JsonValue::String(t), rx)),
{
    let left_interval = match string_length_interval_bound(left) {
        Some(iv) => iv,
        None => return false,
    };
    let right_interval = match string_length_interval_bound(right) {
        Some(iv) => iv,
        None => return false,
    };
    let r = left_interval.empty || right_interval.empty || length_interval_strictly_before(left_interval, right_interval)
        || length_interval_strictly_before(right_interval, left_interval);
    proof {
        assert forall|t: String, rx: spec_fn(Seq<char>, Seq<char>) -> bool|
            r implies !(#[trigger] accepts(*left, JsonValue::String(t), rx) && #[trigger] accepts(*right, JsonValue::String(t), rx)) by {
            lemma_string_length_bound_sound(*left, t, rx);
            lemma_string_length_bound_sound(*right, t, rx);
        }
    }
    r
}

/// The bounds gathered by `split_allof_string_length_is_impossible` from the
/// first `n` conjuncts: the largest `minLength`, the smallest `maxLength`,
/// and whether any (unwrapped) conjunct is a string schema.
pub open spec fn split_string_lengths(children: Seq<SchemaNode>, n: nat) -> (u64, Option<u64>, bool)
    decreases n,
{
    if n == 0 || n > children.len() {
        (0, None, false)
    } else {
        let (lower, upper, saw) = split_string_lengths(children, (n - 1) as nat);
        match unwrap_singletons(children[n - 1]).kind {
            SchemaNodeKind::String { length, .. } => (
                if lower >= length.min { lower } else { length.min },
                match length.max {
                    Some(m) => Some(match upper {
                        None => m,
                        Some(c) => if c <= m { c } else { m },
                    }),
                    None => upper,
                },
                true,
            ),
            _ => (lower, upper, saw),
        }
    }
}

/// The test `split_allof_string_length_is_impossible` performs.
pub open spec fn split_string_length_conflict(s: SchemaNode) -> bool {
    match s.kind {
        SchemaNodeKind::AllOf(children) => {
            let (lower, upper, saw) = split_string_lengths(children@, children@.len());
            &&& may_accept_some_type(s)
            &&& !may_accept_other_type(s, JSON_TYPE_STRING)
            &&& saw
            &&& upper matches Some(u) && lower > u
        },
        _ => false,
    }
}

/// A string every one of the first `n` conjuncts accepts respects the
/// gathered bounds.
proof fn lemma_split_string_lengths_sound(children: Seq<SchemaNode>, n: nat, t: String, rx: spec_fn(Seq<char>, Seq<char>) -> bool)
    requires
        n <= children.len(),
        forall|i: int| 0 <= i < n ==> accepts(#[trigger] children[i], JsonValue::String(t), rx),
    ensures
        split_string_lengths(children, n).0 <= t@.len(),
        split_string_lengths(children, n).1 matches Some(u) ==> t@.len() <= u,
    decreases n,
{
    if n > 0 {
        lemma_split_string_lengths_sound(children, (n - 1) as nat, t, rx);
        lemma_unwrap_singletons_accepts(children[n - 1], JsonValue::String(t), rx);
        assert(accepts(children[n - 1], JsonValue::String(t), rx));
    }
}

/// Whether `schema` is a string-only `allOf` whose string conjuncts (looked
/// at through single-branch applicators) have crossing length bounds, such
/// as `allOf: [{minLength: 3}, {maxLength: 1}]`; then it accepts nothing.
pub fn split_allof_string_length_is_impossible(schema: &SchemaNode) -> (r: bool)
    ensures
        r == split_string_length_conflict(*schema),
        r ==> forall|v: JsonValue, rx: spec_fn(Seq<char>, Seq<char>) -> bool| !#[trigger] accepts(*schema, v, rx),
{
    let children = match &schema.kind {
        SchemaNodeKind::AllOf(children) => children,
        _ => return false,
    };
    let mask = possible_json_type_mask(schema);
    proof { lemma_possible_mask_tests(mask, *schema, JSON_TYPE_STRING); }
    if mask == 0 || mask & !JSON_TYPE_STRING != 0 {
        return false;
    }
    let mut lower: u64 = 0;
    let mut upper: Option<u64> = None;
    let mut saw_string_bound = false;
    let mut i: usize = 0;
    while i < children.len()
        invariant
            i <= children@.len(),
            split_string_lengths(children@, i as nat) == (lower, upper, saw_string_bound),
        decreases children@.len() - i,
    {
        let child = unwrap_singleton_applicators(&children[i]);
        match &child.kind {
            SchemaNodeKind::String { length, .. } => {
                saw_string_bound = true;
                if length.min > lower {
                    lower = length.min;
                }
                match length.max {
                    Some(child_upper) => {
                        upper = Some(match upper {
                            None => child_upper,
                            Some(current) => if current <= child_upper { current } else { child_upper },
                        });
                    },
                    None => {},
                }
            },
            _ => {},
        }
        i = i + 1;
    }
    let r = saw_string_bound && match upper {
        Some(max_len) => lower > max_len,
        None => false,
    };
    proof {
        assert forall|v: JsonValue, rx: spec_fn(Seq<char>, Seq<char>) -> bool| r implies !#[trigger] accepts(*schema, v, rx) by {
            if accepts(*schema, v, rx) {
                lemma_type_restriction(*schema, JSON_TYPE_STRING, v, rx);
                let t = v->String_0;
                assert(forall|k: int| 0 <= k < children@.len() ==> accepts(#[trigger] schema.kind->AllOf_0@[k], v, rx));
                lemma_split_string_lengths_sound(children@, children@.len(), t, rx);
            }
        }
    }
    r
}

/// The bound-function contract `split_allof_length_subset_of_type` relies
/// on: whatever it returns for a schema, it may be called on any schema.
pub open spec fn callable_bound<F: Fn(&SchemaNode) -> Option<LengthInterval>>(interval_bound: F) -> bool {
    forall|s: &SchemaNode| #[trigger] interval_bound.requires((s,))
}

/// Whether a split `allOf` `sub` whose only possible type is `type_bit` has
/// its lengths (as measured by `interval_bound`) inside those of `sup`:
/// - true when `sub` may accept no type at all;
/// - false when `sub` may accept a type other than `type_bit`;
/// - otherwise true when `sub`'s interval is known and empty, or known and
///   contained in `sup`'s known interval.
pub fn split_allof_length_subset_of_type<F: Fn(&SchemaNode) -> Option<LengthInterval>>(
    sub: &SchemaNode,
    sup: &SchemaNode,
    type_bit: u8,
    interval_bound: F,
) -> (r: bool)
    requires
        crate::bits::is_type_bit(type_bit),
        callable_bound(interval_bound),
    ensures
        !may_accept_some_type(*sub) ==> r,
        may_accept_some_type(*sub) && may_accept_other_type(*sub, type_bit) ==> !r,
        may_accept_some_type(*sub) && !may_accept_other_type(*sub, type_bit) ==> exists|a: Option<LengthInterval>|
            #[trigger] interval_bound.ensures((sub,), a) && match a {
                None => !r,
                Some(ia) => if ia.empty {
                    r
                } else {
                    exists|b: Option<LengthInterval>| #[trigger] interval_bound.ensures((sup,), b)
                        && r == (b matches Some(ib) && interval_contains(ib, ia))
                },
            },
{
    let sub_mask = possible_json_type_mask(sub);
    proof { lemma_possible_mask_tests(sub_mask, *sub, type_bit); }
    if sub_mask == 0 {
        return true;
    }
    if sub_mask & !type_bit != 0 {
        return false;
    }
    let sub_result = interval_bound(sub);
    let sub_interval = match sub_result {
        Some(iv) => iv,
        None => return false,
    };
    if sub_interval.empty {
        return true;
    }
    let sup_result = interval_bound(sup);
    let sup_interval = match sup_result {
        Some(iv) => iv,
        None => {
            assert(interval_bound.ensures((sub,), sub_result));
            assert(interval_bound.ensures((sup,), sup_result));
            return false;
        },
    };
    let r = length_interval_contains(sup_interval, sub_interval);
    assert(interval_bound.ensures((sub,), sub_result));
    assert(interval_bound.ensures((sup,), sup_result));
    r
}

/// The test `split_allof_string_length_subset_of_string` performs.
pub open spec fn string_length_subset(sub: SchemaNode, sup: SchemaNode) -> bool {
    !may_accept_some_type(sub) || (!may_accept_other_type(sub, JSON_TYPE_STRING) && match string_length_bound(sub) {
        None => false,
        Some(a) => a.empty || match string_length_bound(sup) {
            None => false,
            Some(b) => interval_contains(b, a),
        },
    })
}

/// Whether every value `sub` accepts is a string whose length lies in
/// `sup`'s string-length interval (used with a plain string `sup`).
pub fn split_allof_string_length_subset_of_string(sub: &SchemaNode, sup: &SchemaNode) -> (r: bool)
    ensures
        r == string_length_subset(*sub, *sup),
        r ==> forall|v: JsonValue, rx: spec_fn(Seq<char>, Seq<char>) -> bool| #[trigger] accepts(*sub, v, rx)
            ==> v is String && string_length_bound(*sup) is Some
                && length_in(string_length_bound(*sup)->0, v->String_0@.len() as int),
{
    let r = split_allof_length_subset_of_type(sub, sup, JSON_TYPE_STRING, string_length_interval_bound);
    proof {
        assert forall|v: JsonValue, rx: spec_fn(Seq<char>, Seq<char>) -> bool| r && #[trigger] accepts(*sub, v, rx)
            implies v is String && string_length_bound(*sup) is Some
                && length_in(string_length_bound(*sup)->0, v->String_0@.len() as int) by {
            lemma_type_restriction(*sub, JSON_TYPE_STRING, v, rx);
            let t = v->String_0;
            lemma_string_length_bound_sound(*sub, t, rx);
            if string_length_bound(*sup) is Some {
                lemma_string_length_bound_sound(*sup, t, rx);
            }
        }
    }
    r
}

} // verus!
