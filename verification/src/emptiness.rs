//! Local emptiness: schemas that accept no value for reasons visible at the
//! node itself, and what that says of two-arm and trivial `oneOf`s.
//!
//! Some answers consult a schema evaluator (a caller-supplied function that
//! says whether a schema accepts a concrete value); the facts proved here
//! hold for every evaluator whose rejections are right wherever the
//! deviation analysis of `membership` says they cannot be wrong.

use vstd::prelude::*;
use crate::json::{JsonValue, json_eq, json_type_bit, JSON_TYPE_NULL};
use crate::schema::{SchemaNode, SchemaNodeKind};
use crate::semantics::{accepts, matching_count};
use crate::types::{possible_json_type_mask, may_accept_some_type, may_have_type, lemma_possible_mask_tests,
    lemma_type_facts_sound};
use crate::enumeration::{enumeration_of, constrained_enumeration, lemma_enumeration_caps};
use crate::membership::{acceptance_deviation, schema_may_under_accept_values};

verus! {

/// Whether the executable evaluator answers as `ev` does.
pub open spec fn evaluator_agrees<G: Fn(&SchemaNode, &JsonValue) -> bool>(evaluator: G, ev: spec_fn(SchemaNode, JsonValue) -> bool) -> bool {
    forall|s: &SchemaNode, v: &JsonValue, r: bool| #[trigger] evaluator.ensures((s, v), r) ==> r == ev(*s, *v)
}

/// Whether the evaluator may be called on any schema and value.
pub open spec fn evaluator_callable<G: Fn(&SchemaNode, &JsonValue) -> bool>(evaluator: G) -> bool {
    forall|s: &SchemaNode, v: &JsonValue| #[trigger] evaluator.requires((s, v))
}

/// Whether `ev` accepts every value equal to one that `s` accepts under
/// `rx`, wherever `s` cannot make an evaluator under-accept.
pub open spec fn evaluator_sound(ev: spec_fn(SchemaNode, JsonValue) -> bool, rx: spec_fn(Seq<char>, Seq<char>) -> bool) -> bool {
    forall|s: SchemaNode, v: JsonValue, w: JsonValue|
        !acceptance_deviation(s).may_under_accept && #[trigger] accepts(s, v, rx) && #[trigger] json_eq(v, w)
            ==> ev(s, w)
}

/// The first two reasons of `locally_empty`, which look at the node alone.
pub open spec fn node_empty(s: SchemaNode, ev: spec_fn(SchemaNode, JsonValue) -> bool) -> bool {
    ||| s.kind == SchemaNodeKind::BoolSchema(false)
    ||| (s.kind matches SchemaNodeKind::Enum(values) && values@.len() == 0)
    ||| !may_accept_some_type(s)
    ||| (enumeration_of(s) matches Some(values) && values@.len() == 0)
    ||| (enumeration_of(s) matches Some(values) && !acceptance_deviation(s).may_under_accept
            && forall|i: int| 0 <= i < values@.len() ==> !ev(s, #[trigger] values@[i]))
}

/// Whether `s` is empty for a reason visible at the node, `ev` being the
/// evaluator's answers:
/// - it is `false`, an empty `enum`, may accept no JSON type, or carries an
///   empty enumeration;
/// - it carries an enumeration, cannot make the evaluator under-accept, and
///   the evaluator rejects every member;
/// - it is an `allOf` with a locally empty conjunct, or an `anyOf`/`oneOf`
///   of one locally empty branch.
pub open spec fn locally_empty(s: SchemaNode, ev: spec_fn(SchemaNode, JsonValue) -> bool) -> bool
    decreases s,
{
    ||| node_empty(s, ev)
    ||| match s.kind {
            SchemaNodeKind::AllOf(children) => exists|i: int| 0 <= i < children@.len()
                && locally_empty(#[trigger] children@[i], ev),
            SchemaNodeKind::AnyOf(children) => children@.len() == 1 && locally_empty(children@[0], ev),
            SchemaNodeKind::OneOf(children) => children@.len() == 1 && locally_empty(children@[0], ev),
            _ => false,
        }
}

/// Whether the evaluator rejects every one of `values` for `schema`.
fn evaluator_rejects_all<G: Fn(&SchemaNode, &JsonValue) -> bool>(schema: &SchemaNode, values: &Vec<JsonValue>, evaluator: &G) -> (r: bool)
    requires
        evaluator_callable(*evaluator),
    ensures
        forall|ev: spec_fn(SchemaNode, JsonValue) -> bool| #[trigger] evaluator_agrees(*evaluator, ev)
            ==> r == forall|i: int| 0 <= i < values@.len() ==> !ev(*schema, #[trigger] values@[i]),
{
    let mut i: usize = 0;
    while i < values.len()
        invariant
            i <= values@.len(),
            evaluator_callable(*evaluator),
            forall|ev: spec_fn(SchemaNode, JsonValue) -> bool, j: int|
                #![trigger evaluator_agrees(*evaluator, ev), values@[j]]
                evaluator_agrees(*evaluator, ev) && 0 <= j < i ==> !ev(*schema, values@[j]),
        decreases values@.len() - i,
    {
        let accepted = evaluator(schema, &values[i]);
        proof {
            assert((*evaluator).ensures((schema, &values[i as int]), accepted));
        }
        if accepted {
            proof {
                assert forall|ev: spec_fn(SchemaNode, JsonValue) -> bool| #[trigger] evaluator_agrees(*evaluator, ev)
                    implies !(forall|k: int| 0 <= k < values@.len() ==> !ev(*schema, #[trigger] values@[k])) by {
                    assert((*evaluator).ensures((schema, &values[i as int]), accepted));
                    assert(ev(*schema, values@[i as int]));
                }
            }
            return false;
        }
        proof {
            assert forall|ev: spec_fn(SchemaNode, JsonValue) -> bool, j: int|
                #![trigger evaluator_agrees(*evaluator, ev), values@[j]]
                evaluator_agrees(*evaluator, ev) && 0 <= j < i + 1 implies !ev(*schema, values@[j]) by {
                if j == i {
                    assert((*evaluator).ensures((schema, &values[i as int]), accepted));
                }
            }
        }
        i = i + 1;
    }
    proof {
        assert forall|ev: spec_fn(SchemaNode, JsonValue) -> bool| #[trigger] evaluator_agrees(*evaluator, ev)
            implies forall|k: int| 0 <= k < values@.len() ==> !ev(*schema, #[trigger] values@[k]) by {
            assert forall|k: int| 0 <= k < values@.len() implies !ev(*schema, #[trigger] values@[k]) by {
                assert(!ev(*schema, values@[k]));
            }
        }
    }
    true
}

/// Whether `schema` is empty for a reason visible at the node (see
/// `locally_empty`); `evaluator(schema, value)` says whether a schema
/// accepts a concrete value.
pub fn schema_is_locally_empty_for_finite_enumeration<G: Fn(&SchemaNode, &JsonValue) -> bool>(schema: &SchemaNode, evaluator: &G) -> (r: bool)
    requires
        evaluator_callable(*evaluator),
    ensures
        forall|ev: spec_fn(SchemaNode, JsonValue) -> bool| evaluator_agrees(*evaluator, ev)
            ==> r == #[trigger] locally_empty(*schema, ev),
    decreases *schema,
{
    let is_false = match &schema.kind {
        SchemaNodeKind::BoolSchema(b) => !*b,
        _ => false,
    };
    let empty_enum = match &schema.kind {
        SchemaNodeKind::Enum(values) => values.len() == 0,
        _ => false,
    };
    let mask = possible_json_type_mask(schema);
    proof { lemma_possible_mask_tests(mask, *schema, JSON_TYPE_NULL); }
    let enumeration = constrained_enumeration(schema);
    let empty_constrained = match enumeration {
        Some(values) => values.len() == 0,
        None => false,
    };
    if is_false || empty_enum || mask == 0 || empty_constrained {
        return true;
    }
    match enumeration {
        Some(values) => {
            if !schema_may_under_accept_values(schema) && evaluator_rejects_all(schema, values, evaluator) {
                return true;
            }
        },
        None => {},
    }
    proof {
        assert forall|ev: spec_fn(SchemaNode, JsonValue) -> bool| evaluator_agrees(*evaluator, ev)
            implies !#[trigger] node_empty(*schema, ev) by {
            match enumeration {
                Some(values) => {
                    if !acceptance_deviation(*schema).may_under_accept {
                        assert(evaluator_agrees(*evaluator, ev));
                    }
                },
                None => {},
            }
        }
    }
    match &schema.kind {
        SchemaNodeKind::AllOf(children) => {
            let mut i: usize = 0;
            while i < children.len()
                invariant
                    i <= children@.len(),
                    schema.kind == SchemaNodeKind::AllOf(*children),
                    evaluator_callable(*evaluator),
                    forall|ev: spec_fn(SchemaNode, JsonValue) -> bool, j: int| evaluator_agrees(*evaluator, ev) && 0 <= j < i
                        ==> !#[trigger] locally_empty(children@[j], ev),
                decreases children@.len() - i,
            {
                proof {
                    assert(decreases_to!(*schema => schema.kind));
                    assert(decreases_to!(schema.kind => schema.kind->AllOf_0));
                    assert(decreases_to!(*children => children[i as int]));
                }
                if schema_is_locally_empty_for_finite_enumeration(&children[i], evaluator) {
                    proof {
                        assert forall|ev: spec_fn(SchemaNode, JsonValue) -> bool| evaluator_agrees(*evaluator, ev)
                            implies #[trigger] locally_empty(*schema, ev) by {
                            assert(locally_empty(children@[i as int], ev));
                        }
                    }
                    return true;
                }
                i = i + 1;
            }
            proof {
                assert forall|ev: spec_fn(SchemaNode, JsonValue) -> bool| evaluator_agrees(*evaluator, ev)
                    implies !#[trigger] locally_empty(*schema, ev) by {
                    if exists|k: int| 0 <= k < children@.len() && locally_empty(#[trigger] children@[k], ev) {
                        let k = choose|k: int| 0 <= k < children@.len() && locally_empty(#[trigger] children@[k], ev);
                        assert(!locally_empty(children@[k], ev));
                    }
                }
            }
            false
        },
        SchemaNodeKind::AnyOf(children) => {
            if children.len() == 1 {
                proof {
                    assert(decreases_to!(*schema => schema.kind));
                    assert(decreases_to!(schema.kind => schema.kind->AnyOf_0));
                    assert(decreases_to!(*children => children[0]));
                }
                let r = schema_is_locally_empty_for_finite_enumeration(&children[0], evaluator);
                proof {
                    assert forall|ev: spec_fn(SchemaNode, JsonValue) -> bool| evaluator_agrees(*evaluator, ev)
                        implies r == #[trigger] locally_empty(*schema, ev) by {
                        assert(r == locally_empty(children@[0], ev));
                        assert(!node_empty(*schema, ev));
                    }
                }
                r
            } else {
                proof {
                    assert forall|ev: spec_fn(SchemaNode, JsonValue) -> bool| evaluator_agrees(*evaluator, ev)
                        implies !#[trigger] locally_empty(*schema, ev) by {
                        assert(!node_empty(*schema, ev));
                    }
                }
                false
            }
        },
        SchemaNodeKind::OneOf(children) => {
            if children.len() == 1 {
                proof {
                    assert(decreases_to!(*schema => schema.kind));
                    assert(decreases_to!(schema.kind => schema.kind->OneOf_0));
                    assert(decreases_to!(*children => children[0]));
                }
                let r = schema_is_locally_empty_for_finite_enumeration(&children[0], evaluator);
                proof {
                    assert forall|ev: spec_fn(SchemaNode, JsonValue) -> bool| evaluator_agrees(*evaluator, ev)
                        implies r == #[trigger] locally_empty(*schema, ev) by {
                        assert(r == locally_empty(children@[0], ev));
                        assert(!node_empty(*schema, ev));
                    }
                }
                r
            } else {
                proof {
                    assert forall|ev: spec_fn(SchemaNode, JsonValue) -> bool| evaluator_agrees(*evaluator, ev)
                        implies !#[trigger] locally_empty(*schema, ev) by {
                        assert(!node_empty(*schema, ev));
                    }
                }
                false
            }
        },
        _ => {
            proof {
                assert forall|ev: spec_fn(SchemaNode, JsonValue) -> bool| evaluator_agrees(*evaluator, ev)
                    implies !#[trigger] locally_empty(*schema, ev) by {
                    assert(!node_empty(*schema, ev));
                }
            }
            false
        },
    }
}

/// Law: a locally empty schema accepts no value, for every regex semantics
/// and every evaluator sound for it.
pub proof fn lemma_locally_empty_sound(s: SchemaNode, v: JsonValue, ev: spec_fn(SchemaNode, JsonValue) -> bool,
    rx: spec_fn(Seq<char>, Seq<char>) -> bool)
    requires
        evaluator_sound(ev, rx),
        locally_empty(s, ev),
    ensures
        !accepts(s, v, rx),
    decreases s,
{
    if accepts(s, v, rx) {
        lemma_type_facts_sound(s, v, rx);
        assert(crate::bits::is_type_bit(json_type_bit(v)));
        assert(may_accept_some_type(s));
        if enumeration_of(s) is Some {
            lemma_enumeration_caps(s, v, rx);
            let values = enumeration_of(s)->0;
            let i = choose|i: int| 0 <= i < values@.len() && json_eq(v, #[trigger] values@[i]);
            if !acceptance_deviation(s).may_under_accept {
                assert(ev(s, values@[i]));
            }
        }
        match s.kind {
            SchemaNodeKind::Enum(values) => {
                let i = choose|i: int| 0 <= i < values@.len() && json_eq(v, #[trigger] values@[i]);
            },
            SchemaNodeKind::AllOf(children) => {
                if exists|i: int| 0 <= i < children@.len() && locally_empty(#[trigger] children@[i], ev) {
                    let i = choose|i: int| 0 <= i < children@.len() && locally_empty(#[trigger] children@[i], ev);
                    lemma_locally_empty_sound(children@[i], v, ev, rx);
                }
            },
            SchemaNodeKind::AnyOf(children) => {
                if children@.len() == 1 && locally_empty(children@[0], ev) {
                    lemma_locally_empty_sound(children@[0], v, ev, rx);
                }
            },
            SchemaNodeKind::OneOf(children) => {
                if children@.len() == 1 && locally_empty(children@[0], ev) {
                    lemma_locally_empty_sound(children@[0], v, ev, rx);
                }
            },
            _ => {},
        }
    }
}

/// Whether exactly one of `branches` accepts `v` (what `oneOf` demands).
pub open spec fn exactly_one_accepts(branches: Seq<SchemaNode>, v: JsonValue, rx: spec_fn(Seq<char>, Seq<char>) -> bool) -> bool {
    exists|i: int| 0 <= i < branches.len() && accepts(#[trigger] branches[i], v, rx)
        && forall|j: int| 0 <= j < branches.len() && j != i ==> !accepts(#[trigger] branches[j], v, rx)
}

/// The live arm of a two-arm `oneOf` whose other arm is locally empty:
/// `Some(k)` when exactly arm `k` is live, `None` otherwise (or when there
/// are not two arms).
pub open spec fn single_live_arm(branches: Seq<SchemaNode>, ev: spec_fn(SchemaNode, JsonValue) -> bool) -> Option<int> {
    if branches.len() != 2 {
        None
    } else {
        match (locally_empty(branches[0], ev), locally_empty(branches[1], ev)) {
            (true, false) => Some(1),
            (false, true) => Some(0),
            _ => None,
        }
    }
}

/// For a two-arm `oneOf` with exactly one locally empty arm, the other arm
/// (see `single_live_arm`).
pub fn one_of_pair_single_live_branch<'a, G: Fn(&SchemaNode, &JsonValue) -> bool>(branches: &'a [SchemaNode], evaluator: &G)
    -> (r: Option<&'a SchemaNode>)
    requires
        evaluator_callable(*evaluator),
    ensures
        forall|ev: spec_fn(SchemaNode, JsonValue) -> bool| #[trigger] evaluator_agrees(*evaluator, ev)
            ==> match single_live_arm(branches@, ev) {
                None => r is None,
                Some(k) => r matches Some(b) && *b == branches@[k],
            },
{
    if branches.len() != 2 {
        return None;
    }
    let left_empty = schema_is_locally_empty_for_finite_enumeration(&branches[0], evaluator);
    let right_empty = schema_is_locally_empty_for_finite_enumeration(&branches[1], evaluator);
    let r = if left_empty && !right_empty {
        Some(&branches[1])
    } else if !left_empty && right_empty {
        Some(&branches[0])
    } else {
        None
    };
    proof {
        assert forall|ev: spec_fn(SchemaNode, JsonValue) -> bool| #[trigger] evaluator_agrees(*evaluator, ev)
            implies match single_live_arm(branches@, ev) {
                None => r is None,
                Some(k) => r matches Some(b) && *b == branches@[k],
            } by {
            assert(left_empty == locally_empty(branches@[0], ev));
            assert(right_empty == locally_empty(branches@[1], ev));
        }
    }
    r
}

/// Law: when one arm of a two-arm `oneOf` is locally empty, the `oneOf`
/// accepts exactly what the other arm accepts.
pub proof fn lemma_single_live_arm_exact(branches: Seq<SchemaNode>, v: JsonValue, ev: spec_fn(SchemaNode, JsonValue) -> bool,
    rx: spec_fn(Seq<char>, Seq<char>) -> bool)
    requires
        evaluator_sound(ev, rx),
        single_live_arm(branches, ev) is Some,
    ensures
        exactly_one_accepts(branches, v, rx) == accepts(branches[single_live_arm(branches, ev)->0], v, rx),
{
    let k = single_live_arm(branches, ev)->0;
    let other = 1 - k;
    lemma_locally_empty_sound(branches[other], v, ev, rx);
    if accepts(branches[k], v, rx) {
        assert forall|j: int| 0 <= j < branches.len() && j != k implies !accepts(#[trigger] branches[j], v, rx) by {
            assert(j == other);
        }
    }
}

/// The arms of a `oneOf` that are not locally empty, as a count capped at
/// two, with the position of the last one seen.
pub open spec fn live_arms(branches: Seq<SchemaNode>, ev: spec_fn(SchemaNode, JsonValue) -> bool, n: nat) -> (nat, int)
    decreases n,
{
    if n == 0 || n > branches.len() {
        (0, -1)
    } else {
        let (count, last) = live_arms(branches, ev, (n - 1) as nat);
        if locally_empty(branches[n - 1], ev) {
            (count, last)
        } else {
            (if count >= 2 { 2nat } else { count + 1 }, n - 1)
        }
    }
}

/// What a `oneOf` reduces to when at most one arm is live: `Some(None)` when
/// every arm is locally empty, `Some(Some(k))` when only arm `k` is live,
/// `None` when two or more are.
pub open spec fn trivial_live_arm(branches: Seq<SchemaNode>, ev: spec_fn(SchemaNode, JsonValue) -> bool) -> Option<Option<int>> {
    let (count, last) = live_arms(branches, ev, branches.len());
    if count == 0 {
        Some(None)
    } else if count == 1 {
        Some(Some(last))
    } else {
        None
    }
}

/// The single live arm of a `oneOf`, if at most one arm is live (see
/// `trivial_live_arm`).
pub fn one_of_trivial_live_branch<'a, G: Fn(&SchemaNode, &JsonValue) -> bool>(branches: &'a [SchemaNode], evaluator: &G)
    -> (r: Option<Option<&'a SchemaNode>>)
    requires
        evaluator_callable(*evaluator),
    ensures
        forall|ev: spec_fn(SchemaNode, JsonValue) -> bool| #[trigger] evaluator_agrees(*evaluator, ev)
            ==> match trivial_live_arm(branches@, ev) {
                None => r is None,
                Some(None) => r == Some(None::<&SchemaNode>),
                Some(Some(k)) => r matches Some(Some(b)) && *b == branches@[k],
            },
{
    let mut live: Option<usize> = None;
    let mut i: usize = 0;
    while i < branches.len()
        invariant
            i <= branches@.len(),
            evaluator_callable(*evaluator),
            live matches Some(k) ==> k < i,
            forall|ev: spec_fn(SchemaNode, JsonValue) -> bool| #[trigger] evaluator_agrees(*evaluator, ev)
                ==> match live {
                    None => live_arms(branches@, ev, i as nat).0 == 0,
                    Some(k) => live_arms(branches@, ev, i as nat) == (1nat, k as int) && k < i,
                },
        decreases branches@.len() - i,
    {
        let empty = schema_is_locally_empty_for_finite_enumeration(&branches[i], evaluator);
        if !empty {
            if live.is_some() {
                proof {
                    assert forall|ev: spec_fn(SchemaNode, JsonValue) -> bool| #[trigger] evaluator_agrees(*evaluator, ev)
                        implies trivial_live_arm(branches@, ev) is None by {
                        assert(live_arms(branches@, ev, (i + 1) as nat).0 == 2);
                        lemma_live_arms_grow(branches@, ev, (i + 1) as nat, branches@.len());
                    }
                }
                return None;
            }
            live = Some(i);
        }
        i = i + 1;
    }
    match live {
        None => Some(None),
        Some(k) => Some(Some(&branches[k])),
    }
}

/// Once two live arms are seen, the capped count stays at two.
proof fn lemma_live_arms_grow(branches: Seq<SchemaNode>, ev: spec_fn(SchemaNode, JsonValue) -> bool, n: nat, m: nat)
    requires
        n <= m <= branches.len(),
        live_arms(branches, ev, n).0 == 2,
    ensures
        live_arms(branches, ev, m).0 == 2,
    decreases m - n,
{
    if n < m {
        lemma_live_arms_grow(branches, ev, n, (m - 1) as nat);
    }
}

/// The arms counted live are exactly the arms that are not locally empty.
proof fn lemma_live_arms_facts(branches: Seq<SchemaNode>, ev: spec_fn(SchemaNode, JsonValue) -> bool, n: nat)
    requires
        n <= branches.len(),
    ensures
        live_arms(branches, ev, n).0 == 0 ==> forall|j: int| 0 <= j < n ==> locally_empty(#[trigger] branches[j], ev),
        live_arms(branches, ev, n).0 == 1 ==> 0 <= live_arms(branches, ev, n).1 < n
            && !locally_empty(branches[live_arms(branches, ev, n).1], ev)
            && forall|j: int| 0 <= j < n && j != live_arms(branches, ev, n).1 ==> locally_empty(#[trigger] branches[j], ev),
    decreases n,
{
    if n > 0 {
        lemma_live_arms_facts(branches, ev, (n - 1) as nat);
    }
}

/// Law: a `oneOf` whose arms are all locally empty accepts nothing, and one
/// with a single live arm accepts exactly what that arm accepts.
pub proof fn lemma_trivial_live_arm_exact(branches: Seq<SchemaNode>, v: JsonValue, ev: spec_fn(SchemaNode, JsonValue) -> bool,
    rx: spec_fn(Seq<char>, Seq<char>) -> bool)
    requires
        evaluator_sound(ev, rx),
        trivial_live_arm(branches, ev) is Some,
    ensures
        match trivial_live_arm(branches, ev)->0 {
            None => !exactly_one_accepts(branches, v, rx),
            Some(k) => exactly_one_accepts(branches, v, rx) == accepts(branches[k], v, rx),
        },
{
    lemma_live_arms_facts(branches, ev, branches.len());
    assert forall|j: int| 0 <= j < branches.len() && locally_empty(#[trigger] branches[j], ev)
        implies !accepts(branches[j], v, rx) by {
        lemma_locally_empty_sound(branches[j], v, ev, rx);
    }
    match trivial_live_arm(branches, ev)->0 {
        None => {
            if exactly_one_accepts(branches, v, rx) {
                let i = choose|i: int| 0 <= i < branches.len() && accepts(#[trigger] branches[i], v, rx)
                    && forall|j: int| 0 <= j < branches.len() && j != i ==> !accepts(#[trigger] branches[j], v, rx);
                assert(locally_empty(branches[i], ev));
            }
        },
        Some(k) => {
            if accepts(branches[k], v, rx) {
                assert forall|j: int| 0 <= j < branches.len() && j != k implies !accepts(#[trigger] branches[j], v, rx) by {
                    assert(locally_empty(branches[j], ev));
                }
            }
            if exactly_one_accepts(branches, v, rx) {
                let i = choose|i: int| 0 <= i < branches.len() && accepts(#[trigger] branches[i], v, rx)
                    && forall|j: int| 0 <= j < branches.len() && j != i ==> !accepts(#[trigger] branches[j], v, rx);
                if i != k {
                    assert(locally_empty(branches[i], ev));
                }
            }
        },
    }
}

/// How many of `values` a schema accepts is at most how many there are.
proof fn lemma_matching_count_bounded(s: SchemaNode, values: Seq<JsonValue>, rx: spec_fn(Seq<char>, Seq<char>) -> bool)
    ensures
        matching_count(s, values, rx) <= values.len(),
    decreases values.len(),
{
    if values.len() > 0 {
        lemma_matching_count_bounded(s, values.drop_last(), rx);
    }
}

/// A schema that accepts no value matches none of `values`.
proof fn lemma_matching_count_zero(s: SchemaNode, values: Seq<JsonValue>, rx: spec_fn(Seq<char>, Seq<char>) -> bool)
    requires
        forall|v: JsonValue| !#[trigger] accepts(s, v, rx),
    ensures
        matching_count(s, values, rx) == 0,
    decreases values.len(),
{
    if values.len() > 0 {
        lemma_matching_count_zero(s, values.drop_last(), rx);
        assert(!accepts(s, values.last(), rx));
    }
}

/// Whether an array schema's `contains` demands more matches than it can
/// have: a positive `minContains` above `maxItems`, or a positive
/// `minContains` with a locally empty `contains` schema.
pub open spec fn contains_locally_impossible(s: SchemaNode, ev: spec_fn(SchemaNode, JsonValue) -> bool) -> bool {
    match s.kind {
        SchemaNodeKind::Array { contains, item_count, .. } => match contains {
            Some(c) => c.count.min > 0 && (
                (item_count.max matches Some(mx) && c.count.min > mx) || locally_empty(*c.schema, ev)),
            None => false,
        },
        _ => false,
    }
}

/// Whether `schema`'s `contains` requirement cannot be met (see
/// `contains_locally_impossible`).
pub fn array_contains_requirement_is_locally_impossible<G: Fn(&SchemaNode, &JsonValue) -> bool>(schema: &SchemaNode, evaluator: &G) -> (r: bool)
    requires
        evaluator_callable(*evaluator),
    ensures
        forall|ev: spec_fn(SchemaNode, JsonValue) -> bool| #[trigger] evaluator_agrees(*evaluator, ev)
            ==> r == contains_locally_impossible(*schema, ev),
{
    match &schema.kind {
        SchemaNodeKind::Array { contains: Some(contains), item_count, .. } => {
            let required = contains.count.min;
            if required == 0 {
                return false;
            }
            match item_count.max {
                Some(max_items) => if required > max_items {
                    return true;
                },
                None => {},
            }
            schema_is_locally_empty_for_finite_enumeration(&contains.schema, evaluator)
        },
        _ => false,
    }
}

/// Law: an array schema whose `contains` requirement is locally impossible
/// accepts nothing.
pub proof fn lemma_contains_locally_impossible_sound(s: SchemaNode, v: JsonValue, ev: spec_fn(SchemaNode, JsonValue) -> bool,
    rx: spec_fn(Seq<char>, Seq<char>) -> bool)
    requires
        evaluator_sound(ev, rx),
        contains_locally_impossible(s, ev),
    ensures
        !accepts(s, v, rx),
{
    match s.kind {
        SchemaNodeKind::Array { contains, .. } => match contains {
            Some(c) => match v {
                JsonValue::Array(values) => {
                    lemma_matching_count_bounded(*c.schema, values@, rx);
                    if locally_empty(*c.schema, ev) {
                        assert forall|w: JsonValue| !#[trigger] accepts(*c.schema, w, rx) by {
                            lemma_locally_empty_sound(*c.schema, w, ev, rx);
                        }
                        lemma_matching_count_zero(*c.schema, values@, rx);
                    }
                },
                _ => {},
            },
            None => {},
        },
        _ => {},
    }
}

} // verus!
