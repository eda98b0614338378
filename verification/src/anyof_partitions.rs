//! Universal unions by complementary predicates: an `anyOf` whose branches
//! accept every value of the other JSON types wholesale, and whose arms for
//! one type split it by a predicate `P` and its negation `not Q` with `P`
//! and `Q` obviously equivalent: at one tuple position, over the items of an
//! array, on the single key of an object, or on one property's value.

use vstd::prelude::*;
use crate::json::{JsonValue, JSON_TYPE_ARRAY, json_type_bit};
use crate::schema::{SchemaNode, SchemaNodeKind};
use crate::semantics::{accepts, matching_count};
use crate::bits::is_type_bit;
use crate::types::{obviously_accepts_type, lemma_type_facts_sound, trivially_universal, schema_is_trivially_universal,
    lemma_trivially_universal_accepts};
use crate::covers::some_branch_obviously_accepts;
use crate::partitions::{union_accepts, other_types_covered, other_types_covered_exec};
use crate::equivalence::{obviously_equivalent, schemas_obviously_equivalent,
    lemma_obviously_equivalent_accepts};

verus! {

/// A value of another type than `bit` is accepted by the union when every
/// other type is accepted wholesale by some branch.
pub(crate) proof fn lemma_other_types_accepted(branches: Seq<SchemaNode>, bit: u8, v: JsonValue, rx: spec_fn(Seq<char>, Seq<char>) -> bool)
    requires
        other_types_covered(branches, bit),
        json_type_bit(v) != bit,
    ensures
        union_accepts(branches, v, rx),
{
    let t = json_type_bit(v);
    assert(is_type_bit(t));
    assert(some_branch_obviously_accepts(branches, t));
    let j = choose|j: int| 0 <= j < branches.len() && obviously_accepts_type(#[trigger] branches[j], t);
    lemma_type_facts_sound(branches[j], v, rx);
}

/// Whether `s` reaches, through nested `anyOf`s, a plain array arm
/// (unconstrained items, no count, `contains`, uniqueness or enumeration)
/// whose only constrained tuple position is `idx`, holding `item`.
pub open spec fn prefix_arm(s: SchemaNode, idx: int, item: SchemaNode) -> bool
    decreases s,
{
    match s.kind {
        SchemaNodeKind::AnyOf(children) => exists|i: int| 0 <= i < children@.len() && prefix_arm(#[trigger] children@[i], idx, item),
        SchemaNodeKind::Array { prefix_items, items, item_count, contains, unique_items, enumeration } => {
            &&& trivially_universal(*items)
            &&& item_count.min == 0
            &&& item_count.max is None
            &&& contains is None
            &&& !unique_items
            &&& enumeration is None
            &&& 0 <= idx < prefix_items@.len()
            &&& prefix_items@[idx] == item
            &&& forall|k: int| 0 <= k < prefix_items@.len() && k != idx ==> trivially_universal(#[trigger] prefix_items@[k])
        },
        _ => false,
    }
}

/// A positive predicate at position `idx`: a prefix arm item that is no
/// negation and not trivially universal.
pub open spec fn prefix_positive(s: SchemaNode, idx: int, p: SchemaNode) -> bool {
    prefix_arm(s, idx, p) && !(p.kind is Not) && !trivially_universal(p)
}

/// Whether `item` is the schema `not q`.
pub open spec fn is_negation_of(item: SchemaNode, q: SchemaNode) -> bool {
    item.kind matches SchemaNodeKind::Not(inner) && *inner == q
}

/// A negated predicate `not q` at position `idx` of a prefix arm.
pub open spec fn prefix_negative(s: SchemaNode, idx: int, q: SchemaNode) -> bool {
    exists|item: SchemaNode| #[trigger] prefix_arm(s, idx, item) && is_negation_of(item, q)
}

/// Whether some branch has the positive predicate `p` at `idx`.
pub open spec fn some_prefix_positive(branches: Seq<SchemaNode>, idx: int, p: SchemaNode) -> bool {
    exists|j: int| 0 <= j < branches.len() && #[trigger] prefix_positive(branches[j], idx, p)
}

/// Whether some branch has the negated predicate `not q` at `idx`.
pub open spec fn some_prefix_negative(branches: Seq<SchemaNode>, idx: int, q: SchemaNode) -> bool {
    exists|j: int| 0 <= j < branches.len() && #[trigger] prefix_negative(branches[j], idx, q)
}

/// The test `any_of_prefix_item_partition_is_universal` performs.
pub open spec fn prefix_item_partition(branches: Seq<SchemaNode>) -> bool {
    &&& other_types_covered(branches, JSON_TYPE_ARRAY)
    &&& exists|i: int, j: int, idx: int, p: SchemaNode, q: SchemaNode| 0 <= i < branches.len() && 0 <= j < branches.len()
        && #[trigger] prefix_positive(branches[i], idx, p) && #[trigger] prefix_negative(branches[j], idx, q)
        && obviously_equivalent(p, q)
}

/// A prefix arm accepts every array on which its item at `idx`, when the
/// array reaches that position, accepts the value there.
proof fn lemma_prefix_arm_accepts(s: SchemaNode, idx: int, item: SchemaNode, values: Vec<JsonValue>, rx: spec_fn(Seq<char>, Seq<char>) -> bool)
    requires
        prefix_arm(s, idx, item),
        idx < values@.len() ==> accepts(item, values@[idx], rx),
    ensures
        accepts(s, JsonValue::Array(values), rx),
    decreases s,
{
    match s.kind {
        SchemaNodeKind::AnyOf(children) => {
            let i = choose|i: int| 0 <= i < children@.len() && prefix_arm(#[trigger] children@[i], idx, item);
            lemma_prefix_arm_accepts(children@[i], idx, item, values, rx);
        },
        SchemaNodeKind::Array { prefix_items, items, .. } => {
            assert forall|i: int| 0 <= i < values@.len() && i < prefix_items@.len()
                implies accepts(#[trigger] prefix_items@[i], values@[i], rx) by {
                if i != idx {
                    lemma_trivially_universal_accepts(prefix_items@[i], values@[i], rx);
                }
            }
            assert forall|i: int| 0 <= i < values@.len() && i >= prefix_items@.len()
                implies accepts(*items, #[trigger] values@[i], rx) by {
                lemma_trivially_universal_accepts(*items, values@[i], rx);
            }
        },
        _ => {},
    }
}

/// Appends the `(position, predicate)` pairs of the prefix arms `schema`
/// reaches: positive predicates to `positives`, negated ones (their inner
/// schema) to `negatives`.
fn collect_prefix_predicates<'a>(
    schema: &'a SchemaNode,
    positives: &mut Vec<(usize, &'a SchemaNode)>,
    negatives: &mut Vec<(usize, &'a SchemaNode)>,
)
    ensures
        final(positives)@.len() >= old(positives)@.len(),
        final(negatives)@.len() >= old(negatives)@.len(),
        forall|k: int| 0 <= k < old(positives)@.len() ==> final(positives)@[k] == old(positives)@[k],
        forall|k: int| 0 <= k < old(negatives)@.len() ==> final(negatives)@[k] == old(negatives)@[k],
        forall|k: int| old(positives)@.len() <= k < final(positives)@.len()
            ==> prefix_positive(*schema, (#[trigger] final(positives)@[k]).0 as int, *final(positives)@[k].1),
        forall|k: int| old(negatives)@.len() <= k < final(negatives)@.len()
            ==> prefix_negative(*schema, (#[trigger] final(negatives)@[k]).0 as int, *final(negatives)@[k].1),
        forall|idx: int, p: SchemaNode| #[trigger] prefix_positive(*schema, idx, p) ==> exists|k: int|
            old(positives)@.len() <= k < final(positives)@.len() && final(positives)@[k].0 == idx && *final(positives)@[k].1 == p,
        forall|idx: int, q: SchemaNode| #[trigger] prefix_negative(*schema, idx, q) ==> exists|k: int|
            old(negatives)@.len() <= k < final(negatives)@.len() && final(negatives)@[k].0 == idx && *final(negatives)@[k].1 == q,
    decreases *schema,
{
    let ghost pos_start = positives@;
    let ghost neg_start = negatives@;
    match &schema.kind {
        SchemaNodeKind::AnyOf(children) => {
            let mut i: usize = 0;
            while i < children.len()
                invariant
                    i <= children@.len(),
                    schema.kind == SchemaNodeKind::AnyOf(*children),
                    positives@.len() >= pos_start.len(),
                    negatives@.len() >= neg_start.len(),
                    forall|k: int| 0 <= k < pos_start.len() ==> positives@[k] == pos_start[k],
                    forall|k: int| 0 <= k < neg_start.len() ==> negatives@[k] == neg_start[k],
                    forall|k: int| #![trigger positives@[k]] pos_start.len() <= k < positives@.len() ==> exists|j: int| 0 <= j < i
                        && prefix_positive(#[trigger] children@[j], positives@[k].0 as int, *positives@[k].1),
                    forall|k: int| #![trigger negatives@[k]] neg_start.len() <= k < negatives@.len() ==> exists|j: int| 0 <= j < i
                        && prefix_negative(#[trigger] children@[j], negatives@[k].0 as int, *negatives@[k].1),
                    forall|j: int, idx: int, p: SchemaNode| 0 <= j < i && #[trigger] prefix_positive(children@[j], idx, p)
                        ==> exists|k: int| pos_start.len() <= k < positives@.len() && positives@[k].0 == idx && *positives@[k].1 == p,
                    forall|j: int, idx: int, q: SchemaNode| 0 <= j < i && #[trigger] prefix_negative(children@[j], idx, q)
                        ==> exists|k: int| neg_start.len() <= k < negatives@.len() && negatives@[k].0 == idx && *negatives@[k].1 == q,
                decreases children@.len() - i,
            {
                proof {
                    assert(decreases_to!(*schema => schema.kind));
                    assert(decreases_to!(schema.kind => schema.kind->AnyOf_0));
                    assert(decreases_to!(*children => children[i as int]));
                }
                let ghost pos_before = positives@;
                let ghost neg_before = negatives@;
                collect_prefix_predicates(&children[i], positives, negatives);
                proof {
                    assert forall|k: int| #![trigger positives@[k]] pos_start.len() <= k < positives@.len() implies exists|j: int| 0 <= j < i + 1
                        && prefix_positive(#[trigger] children@[j], positives@[k].0 as int, *positives@[k].1) by {
                        if k < pos_before.len() {
                            assert(positives@[k] == pos_before[k]);
                        } else {
                            assert(prefix_positive(children@[i as int], positives@[k].0 as int, *positives@[k].1));
                        }
                    }
                    assert forall|k: int| #![trigger negatives@[k]] neg_start.len() <= k < negatives@.len() implies exists|j: int| 0 <= j < i + 1
                        && prefix_negative(#[trigger] children@[j], negatives@[k].0 as int, *negatives@[k].1) by {
                        if k < neg_before.len() {
                            assert(negatives@[k] == neg_before[k]);
                        } else {
                            assert(prefix_negative(children@[i as int], negatives@[k].0 as int, *negatives@[k].1));
                        }
                    }
                    assert forall|j: int, idx: int, p: SchemaNode| 0 <= j < i + 1 && #[trigger] prefix_positive(children@[j], idx, p)
                        implies exists|k: int| pos_start.len() <= k < positives@.len() && positives@[k].0 == idx && *positives@[k].1 == p by {
                        if j < i {
                            let k = choose|k: int| pos_start.len() <= k < pos_before.len() && pos_before[k].0 == idx && *pos_before[k].1 == p;
                            assert(positives@[k] == pos_before[k]);
                        }
                    }
                    assert forall|j: int, idx: int, q: SchemaNode| 0 <= j < i + 1 && #[trigger] prefix_negative(children@[j], idx, q)
                        implies exists|k: int| neg_start.len() <= k < negatives@.len() && negatives@[k].0 == idx && *negatives@[k].1 == q by {
                        if j < i {
                            let k = choose|k: int| neg_start.len() <= k < neg_before.len() && neg_before[k].0 == idx && *neg_before[k].1 == q;
                            assert(negatives@[k] == neg_before[k]);
                        }
                    }
                }
                i = i + 1;
            }
            proof {
                assert(schema.kind->AnyOf_0 == *children);
                assert forall|k: int| pos_start.len() <= k < positives@.len()
                    implies prefix_positive(*schema, (#[trigger] positives@[k]).0 as int, *positives@[k].1) by {
                    let j = choose|j: int| 0 <= j < children@.len() && prefix_positive(#[trigger] children@[j], positives@[k].0 as int, *positives@[k].1);
                    assert(prefix_arm(schema.kind->AnyOf_0@[j], positives@[k].0 as int, *positives@[k].1));
                }
                assert forall|k: int| neg_start.len() <= k < negatives@.len()
                    implies prefix_negative(*schema, (#[trigger] negatives@[k]).0 as int, *negatives@[k].1) by {
                    let j = choose|j: int| 0 <= j < children@.len() && prefix_negative(#[trigger] children@[j], negatives@[k].0 as int, *negatives@[k].1);
                    let item = choose|item: SchemaNode| #[trigger] prefix_arm(children@[j], negatives@[k].0 as int, item)
                        && is_negation_of(item, *negatives@[k].1);
                    assert(prefix_arm(schema.kind->AnyOf_0@[j], negatives@[k].0 as int, item));
                    assert(prefix_arm(*schema, negatives@[k].0 as int, item));
                }
                assert forall|idx: int, p: SchemaNode| #[trigger] prefix_positive(*schema, idx, p) implies exists|k: int|
                    pos_start.len() <= k < positives@.len() && positives@[k].0 == idx && *positives@[k].1 == p by {
                    let j = choose|j: int| 0 <= j < schema.kind->AnyOf_0@.len() && prefix_arm(#[trigger] schema.kind->AnyOf_0@[j], idx, p);
                    assert(prefix_positive(children@[j], idx, p));
                }
                assert forall|idx: int, q: SchemaNode| #[trigger] prefix_negative(*schema, idx, q) implies exists|k: int|
                    neg_start.len() <= k < negatives@.len() && negatives@[k].0 == idx && *negatives@[k].1 == q by {
                    let item = choose|item: SchemaNode| #[trigger] prefix_arm(*schema, idx, item)
                        && is_negation_of(item, q);
                    let j = choose|j: int| 0 <= j < schema.kind->AnyOf_0@.len() && prefix_arm(#[trigger] schema.kind->AnyOf_0@[j], idx, item);
                    assert(prefix_arm(children@[j], idx, item));
                    assert(prefix_negative(children@[j], idx, q));
                }
            }
        },
        SchemaNodeKind::Array { prefix_items, items, item_count, contains, unique_items, enumeration } => {
            if !schema_is_trivially_universal(items) || item_count.min != 0 || item_count.max.is_some() || contains.is_some()
                || *unique_items || enumeration.is_some() {
                return;
            }
            let mut idx: usize = 0;
            while idx < prefix_items.len()
                invariant
                    idx <= prefix_items@.len(),
                    schema.kind == (SchemaNodeKind::Array { prefix_items: *prefix_items, items: *items, item_count: *item_count,
                        contains: *contains, unique_items: *unique_items, enumeration: *enumeration }),
                    trivially_universal(**items),
                    item_count.min == 0,
                    item_count.max is None,
                    contains is None,
                    !*unique_items,
                    enumeration is None,
                    positives@.len() >= pos_start.len(),
                    negatives@.len() >= neg_start.len(),
                    forall|k: int| 0 <= k < pos_start.len() ==> positives@[k] == pos_start[k],
                    forall|k: int| 0 <= k < neg_start.len() ==> negatives@[k] == neg_start[k],
                    forall|k: int| pos_start.len() <= k < positives@.len()
                        ==> prefix_positive(*schema, (#[trigger] positives@[k]).0 as int, *positives@[k].1),
                    forall|k: int| neg_start.len() <= k < negatives@.len()
                        ==> prefix_negative(*schema, (#[trigger] negatives@[k]).0 as int, *negatives@[k].1),
                    forall|x: int, p: SchemaNode| x < idx && #[trigger] prefix_positive(*schema, x, p) ==> exists|k: int|
                        pos_start.len() <= k < positives@.len() && positives@[k].0 == x && *positives@[k].1 == p,
                    forall|x: int, q: SchemaNode| x < idx && #[trigger] prefix_negative(*schema, x, q) ==> exists|k: int|
                        neg_start.len() <= k < negatives@.len() && negatives@[k].0 == x && *negatives@[k].1 == q,
                decreases prefix_items@.len() - idx,
            {
                let others_universal = only_position_constrained(prefix_items, idx);
                let ghost pos_before = positives@;
                let ghost neg_before = negatives@;
                if others_universal {
                    let item = &prefix_items[idx];
                    match &item.kind {
                        SchemaNodeKind::Not(inner) => {
                            negatives.push((idx, &**inner));
                            proof {
                                assert(prefix_arm(*schema, idx as int, prefix_items@[idx as int]));
                                assert(prefix_negative(*schema, idx as int, **inner));
                            }
                        },
                        _ => {
                            if !schema_is_trivially_universal(item) {
                                positives.push((idx, item));
                                proof {
                                    assert(prefix_arm(*schema, idx as int, prefix_items@[idx as int]));
                                }
                            }
                        },
                    }
                }
                proof {
                    assert forall|x: int, p: SchemaNode| x < idx + 1 && #[trigger] prefix_positive(*schema, x, p) implies exists|k: int|
                        pos_start.len() <= k < positives@.len() && positives@[k].0 == x && *positives@[k].1 == p by {
                        if x < idx {
                            let k = choose|k: int| pos_start.len() <= k < pos_before.len() && pos_before[k].0 == x && *pos_before[k].1 == p;
                            assert(positives@[k] == pos_before[k]);
                        } else {
                            assert(positives@[pos_before.len() as int].0 == x);
                        }
                    }
                    assert forall|x: int, q: SchemaNode| x < idx + 1 && #[trigger] prefix_negative(*schema, x, q) implies exists|k: int|
                        neg_start.len() <= k < negatives@.len() && negatives@[k].0 == x && *negatives@[k].1 == q by {
                        if x < idx {
                            let k = choose|k: int| neg_start.len() <= k < neg_before.len() && neg_before[k].0 == x && *neg_before[k].1 == q;
                            assert(negatives@[k] == neg_before[k]);
                        } else {
                            let item = choose|item: SchemaNode| #[trigger] prefix_arm(*schema, x, item)
                                && is_negation_of(item, q);
                            assert(item == prefix_items@[idx as int]);
                            assert(negatives@[neg_before.len() as int].0 == x);
                        }
                    }
                }
                idx = idx + 1;
            }
        },
        _ => {},
    }
}

/// Whether every tuple position but `idx` is trivially universal.
fn only_position_constrained(prefix_items: &Vec<SchemaNode>, idx: usize) -> (r: bool)
    ensures
        r == forall|k: int| 0 <= k < prefix_items@.len() && k != idx ==> trivially_universal(#[trigger] prefix_items@[k]),
{
    let mut k: usize = 0;
    while k < prefix_items.len()
        invariant
            k <= prefix_items@.len(),
            forall|j: int| 0 <= j < k && j != idx ==> trivially_universal(#[trigger] prefix_items@[j]),
        decreases prefix_items@.len() - k,
    {
        if k != idx && !schema_is_trivially_universal(&prefix_items[k]) {
            return false;
        }
        k = k + 1;
    }
    true
}

/// Whether an `anyOf` of `branches` accepts every value: every type other
/// than array is accepted wholesale by some branch, and two plain array
/// arms (read through nested `anyOf`s) constrain one tuple position by `P`
/// and by `not Q` with `P` and `Q` obviously equivalent. Then every array
/// satisfies one of them.
pub fn any_of_prefix_item_partition_is_universal(branches: &[SchemaNode]) -> (r: bool)
    ensures
        r == prefix_item_partition(branches@),
        r ==> forall|v: JsonValue, rx: spec_fn(Seq<char>, Seq<char>) -> bool|
            #[trigger] union_accepts(branches@, v, rx),
{
    if !other_types_covered_exec(branches, JSON_TYPE_ARRAY) {
        return false;
    }
    let mut positives: Vec<(usize, &SchemaNode)> = Vec::new();
    let mut negatives: Vec<(usize, &SchemaNode)> = Vec::new();
    let mut i: usize = 0;
    while i < branches.len()
        invariant
            i <= branches@.len(),
            forall|k: int| #![trigger positives@[k]] 0 <= k < positives@.len() ==> exists|j: int| 0 <= j < i
                && prefix_positive(#[trigger] branches@[j], positives@[k].0 as int, *positives@[k].1),
            forall|k: int| #![trigger negatives@[k]] 0 <= k < negatives@.len() ==> exists|j: int| 0 <= j < i
                && prefix_negative(#[trigger] branches@[j], negatives@[k].0 as int, *negatives@[k].1),
            forall|j: int, idx: int, p: SchemaNode| 0 <= j < i && #[trigger] prefix_positive(branches@[j], idx, p)
                ==> exists|k: int| 0 <= k < positives@.len() && positives@[k].0 == idx && *positives@[k].1 == p,
            forall|j: int, idx: int, q: SchemaNode| 0 <= j < i && #[trigger] prefix_negative(branches@[j], idx, q)
                ==> exists|k: int| 0 <= k < negatives@.len() && negatives@[k].0 == idx && *negatives@[k].1 == q,
        decreases branches@.len() - i,
    {
        let ghost pos_before = positives@;
        let ghost neg_before = negatives@;
        collect_prefix_predicates(&branches[i], &mut positives, &mut negatives);
        proof {
            assert forall|k: int| #![trigger positives@[k]] 0 <= k < positives@.len() implies exists|j: int| 0 <= j < i + 1
                && prefix_positive(#[trigger] branches@[j], positives@[k].0 as int, *positives@[k].1) by {
                if k < pos_before.len() {
                    assert(positives@[k] == pos_before[k]);
                } else {
                    assert(prefix_positive(branches@[i as int], positives@[k].0 as int, *positives@[k].1));
                }
            }
            assert forall|k: int| #![trigger negatives@[k]] 0 <= k < negatives@.len() implies exists|j: int| 0 <= j < i + 1
                && prefix_negative(#[trigger] branches@[j], negatives@[k].0 as int, *negatives@[k].1) by {
                if k < neg_before.len() {
                    assert(negatives@[k] == neg_before[k]);
                } else {
                    assert(prefix_negative(branches@[i as int], negatives@[k].0 as int, *negatives@[k].1));
                }
            }
            assert forall|j: int, idx: int, p: SchemaNode| 0 <= j < i + 1 && #[trigger] prefix_positive(branches@[j], idx, p)
                implies exists|k: int| 0 <= k < positives@.len() && positives@[k].0 == idx && *positives@[k].1 == p by {
                if j < i {
                    let k = choose|k: int| 0 <= k < pos_before.len() && pos_before[k].0 == idx && *pos_before[k].1 == p;
                    assert(positives@[k] == pos_before[k]);
                }
            }
            assert forall|j: int, idx: int, q: SchemaNode| 0 <= j < i + 1 && #[trigger] prefix_negative(branches@[j], idx, q)
                implies exists|k: int| 0 <= k < negatives@.len() && negatives@[k].0 == idx && *negatives@[k].1 == q by {
                if j < i {
                    let k = choose|k: int| 0 <= k < neg_before.len() && neg_before[k].0 == idx && *neg_before[k].1 == q;
                    assert(negatives@[k] == neg_before[k]);
                }
            }
        }
        i = i + 1;
    }
    proof {
        assert forall|k: int| 0 <= k < positives@.len()
            implies some_prefix_positive(branches@, (#[trigger] positives@[k]).0 as int, *positives@[k].1) by {
            let j = choose|j: int| 0 <= j < i && prefix_positive(#[trigger] branches@[j], positives@[k].0 as int, *positives@[k].1);
            assert(prefix_positive(branches@[j], positives@[k].0 as int, *positives@[k].1));
        }
        assert forall|k: int| 0 <= k < negatives@.len()
            implies some_prefix_negative(branches@, (#[trigger] negatives@[k]).0 as int, *negatives@[k].1) by {
            let j = choose|j: int| 0 <= j < i && prefix_negative(#[trigger] branches@[j], negatives@[k].0 as int, *negatives@[k].1);
            assert(prefix_negative(branches@[j], negatives@[k].0 as int, *negatives@[k].1));
        }
    }
    let mut a: usize = 0;
    while a < positives.len()
        invariant
            a <= positives@.len(),
            other_types_covered(branches@, JSON_TYPE_ARRAY),
            forall|k: int| 0 <= k < positives@.len() ==> some_prefix_positive(branches@, (#[trigger] positives@[k]).0 as int, *positives@[k].1),
            forall|k: int| 0 <= k < negatives@.len() ==> some_prefix_negative(branches@, (#[trigger] negatives@[k]).0 as int, *negatives@[k].1),
            forall|j: int, idx: int, p: SchemaNode| 0 <= j < branches@.len() && #[trigger] prefix_positive(branches@[j], idx, p)
                ==> exists|k: int| 0 <= k < positives@.len() && positives@[k].0 == idx && *positives@[k].1 == p,
            forall|j: int, idx: int, q: SchemaNode| 0 <= j < branches@.len() && #[trigger] prefix_negative(branches@[j], idx, q)
                ==> exists|k: int| 0 <= k < negatives@.len() && negatives@[k].0 == idx && *negatives@[k].1 == q,
            forall|x: int, y: int| 0 <= x < a && 0 <= y < negatives@.len() ==> !(#[trigger] positives@[x].0 == #[trigger] negatives@[y].0
                && obviously_equivalent(*positives@[x].1, *negatives@[y].1)),
        decreases positives@.len() - a,
    {
        let mut b: usize = 0;
        while b < negatives.len()
            invariant
                a < positives@.len(),
                other_types_covered(branches@, JSON_TYPE_ARRAY),
                forall|k: int| 0 <= k < positives@.len() ==> some_prefix_positive(branches@, (#[trigger] positives@[k]).0 as int, *positives@[k].1),
                forall|k: int| 0 <= k < negatives@.len() ==> some_prefix_negative(branches@, (#[trigger] negatives@[k]).0 as int, *negatives@[k].1),
                forall|j: int, idx: int, p: SchemaNode| 0 <= j < branches@.len() && #[trigger] prefix_positive(branches@[j], idx, p)
                    ==> exists|k: int| 0 <= k < positives@.len() && positives@[k].0 == idx && *positives@[k].1 == p,
                forall|j: int, idx: int, q: SchemaNode| 0 <= j < branches@.len() && #[trigger] prefix_negative(branches@[j], idx, q)
                    ==> exists|k: int| 0 <= k < negatives@.len() && negatives@[k].0 == idx && *negatives@[k].1 == q,
                b <= negatives@.len(),
                forall|x: int, y: int| 0 <= x < a && 0 <= y < negatives@.len() ==> !(#[trigger] positives@[x].0 == #[trigger] negatives@[y].0
                    && obviously_equivalent(*positives@[x].1, *negatives@[y].1)),
                forall|y: int| 0 <= y < b ==> !(positives@[a as int].0 == #[trigger] negatives@[y].0
                    && obviously_equivalent(*positives@[a as int].1, *negatives@[y].1)),
            decreases negatives@.len() - b,
        {
            if positives[a].0 == negatives[b].0 && schemas_obviously_equivalent(positives[a].1, negatives[b].1) {
                proof {
                    assert(some_prefix_positive(branches@, positives@[a as int].0 as int, *positives@[a as int].1));
                    assert(some_prefix_negative(branches@, negatives@[b as int].0 as int, *negatives@[b as int].1));
                    let j1 = choose|j: int| 0 <= j < branches@.len() && #[trigger] prefix_positive(branches@[j], positives@[a as int].0 as int, *positives@[a as int].1);
                    let j2 = choose|j: int| 0 <= j < branches@.len() && #[trigger] prefix_negative(branches@[j], negatives@[b as int].0 as int, *negatives@[b as int].1);
                    assert(prefix_positive(branches@[j1], positives@[a as int].0 as int, *positives@[a as int].1));
                    lemma_prefix_partition_universal(branches@, j1, j2, positives@[a as int].0 as int, *positives@[a as int].1, *negatives@[b as int].1);
                }
                return true;
            }
            b = b + 1;
        }
        a = a + 1;
    }
    proof {
        assert forall|i: int, j: int, idx: int, p: SchemaNode, q: SchemaNode| 0 <= i < branches@.len() && 0 <= j < branches@.len()
            && #[trigger] prefix_positive(branches@[i], idx, p) && #[trigger] prefix_negative(branches@[j], idx, q)
            implies !obviously_equivalent(p, q) by {
            let x = choose|k: int| 0 <= k < positives@.len() && positives@[k].0 == idx && *positives@[k].1 == p;
            let y = choose|k: int| 0 <= k < negatives@.len() && negatives@[k].0 == idx && *negatives@[k].1 == q;
            assert(!(positives@[x].0 == negatives@[y].0 && obviously_equivalent(*positives@[x].1, *negatives@[y].1)));
        }
    }
    false
}

/// Law: a union with every other type covered and a matched pair of
/// complementary predicates at one tuple position accepts every value.
proof fn lemma_prefix_partition_universal(branches: Seq<SchemaNode>, i: int, j: int, idx: int, p: SchemaNode, q: SchemaNode)
    requires
        other_types_covered(branches, JSON_TYPE_ARRAY),
        0 <= i < branches.len(),
        0 <= j < branches.len(),
        prefix_positive(branches[i], idx, p),
        prefix_negative(branches[j], idx, q),
        obviously_equivalent(p, q),
    ensures
        prefix_item_partition(branches),
        forall|v: JsonValue, rx: spec_fn(Seq<char>, Seq<char>) -> bool|
            #[trigger] union_accepts(branches, v, rx),
{
    {
        assert forall|v: JsonValue, rx: spec_fn(Seq<char>, Seq<char>) -> bool| #[trigger] union_accepts(branches, v, rx) by {
            if json_type_bit(v) != JSON_TYPE_ARRAY {
                lemma_other_types_accepted(branches, JSON_TYPE_ARRAY, v, rx);
            } else {
                let values = v->Array_0;
                let item = choose|item: SchemaNode| #[trigger] prefix_arm(branches[j], idx, item)
                    && is_negation_of(item, q);
                if idx < values@.len() {
                    lemma_obviously_equivalent_accepts(p, q, values@[idx], rx);
                    if accepts(p, values@[idx], rx) {
                        lemma_prefix_arm_accepts(branches[i], idx, p, values, rx);
                    } else {
                        lemma_prefix_arm_accepts(branches[j], idx, item, values, rx);
                    }
                } else {
                    lemma_prefix_arm_accepts(branches[i], idx, p, values, rx);
                }
            }
        }
    }
}

/// Whether `s` reaches, through nested `anyOf`s, a plain array arm (no
/// tuple positions, uniqueness or enumeration) of one of two shapes, giving
/// a predicate `p` tagged by its role:
/// - tag 0 (every item satisfies `p`) and tag 1 (every item satisfies
///   `not p`): no `contains`, no count bounds, `items` not trivially
///   universal and equal to `p`, respectively to `not p`;
/// - tag 2 (some item satisfies `p`) and tag 3 (some item satisfies
///   `not p`): unconstrained items, at most one item required, `contains`
///   with at most one match required and no maximum, its schema `p` (not
///   trivially universal), respectively `not p`.
pub open spec fn items_contains_pred(s: SchemaNode, tag: u8, p: SchemaNode) -> bool
    decreases s,
{
    match s.kind {
        SchemaNodeKind::AnyOf(children) => exists|i: int| 0 <= i < children@.len() && items_contains_pred(#[trigger] children@[i], tag, p),
        SchemaNodeKind::Array { prefix_items, items, item_count, contains, unique_items, enumeration } => {
            &&& prefix_items@.len() == 0
            &&& !unique_items
            &&& enumeration is None
            &&& match contains {
                None => {
                    &&& item_count.min == 0
                    &&& item_count.max is None
                    &&& !trivially_universal(*items)
                    &&& if tag == 0 { *items == p && !(p.kind is Not) } else { tag == 1 && is_negation_of(*items, p) }
                },
                Some(c) => {
                    &&& trivially_universal(*items)
                    &&& item_count.min <= 1
                    &&& item_count.max is None
                    &&& c.count.min <= 1
                    &&& c.count.max is None
                    &&& if tag == 2 { *c.schema == p && !(p.kind is Not) && !trivially_universal(p) } else { tag == 3 && is_negation_of(*c.schema, p) }
                },
            }
        },
        _ => false,
    }
}

/// Whether some branch has the predicate `p` in the role `tag`.
pub open spec fn some_items_contains_pred(branches: Seq<SchemaNode>, tag: u8, p: SchemaNode) -> bool {
    exists|j: int| 0 <= j < branches.len() && #[trigger] items_contains_pred(branches[j], tag, p)
}

/// Whether "every item satisfies `p`" meets "some item satisfies `not q`"
/// (tags 0 and 3), or "every item satisfies `not q`" meets "some item
/// satisfies `p`" (tags 1 and 2), with the two predicates obviously
/// equivalent (in the order the test compares them).
pub open spec fn items_contains_match(branches: Seq<SchemaNode>) -> bool {
    ||| exists|p: SchemaNode, q: SchemaNode| #[trigger] some_items_contains_pred(branches, 0, p)
        && #[trigger] some_items_contains_pred(branches, 3, q) && obviously_equivalent(p, q)
    ||| exists|q: SchemaNode, p: SchemaNode| #[trigger] some_items_contains_pred(branches, 1, q)
        && #[trigger] some_items_contains_pred(branches, 2, p) && obviously_equivalent(q, p)
}

/// The test `any_of_items_contains_partition_is_universal` performs.
pub open spec fn items_contains_partition(branches: Seq<SchemaNode>) -> bool {
    other_types_covered(branches, JSON_TYPE_ARRAY) && items_contains_match(branches)
}

/// An array with a value `c` accepts somewhere has a positive match count.
proof fn lemma_matching_count_positive(c: SchemaNode, values: Seq<JsonValue>, k: int, rx: spec_fn(Seq<char>, Seq<char>) -> bool)
    requires
        0 <= k < values.len(),
        accepts(c, values[k], rx),
    ensures
        matching_count(c, values, rx) >= 1,
    decreases values.len(),
{
    if k < values.len() - 1 {
        assert(values.drop_last()[k] == values[k]);
        lemma_matching_count_positive(c, values.drop_last(), k, rx);
    }
}

/// What an arm with the predicate `p` in role `tag` accepts: tag 0 every
/// array whose items all satisfy `p`, tag 1 every array whose items all fail
/// `p`, tag 2 every array with an item satisfying `p`, tag 3 every array with
/// an item failing `p`.
proof fn lemma_items_contains_arm_accepts(s: SchemaNode, tag: u8, p: SchemaNode, values: Vec<JsonValue>, rx: spec_fn(Seq<char>, Seq<char>) -> bool)
    requires
        items_contains_pred(s, tag, p),
        tag == 0 ==> forall|i: int| 0 <= i < values@.len() ==> accepts(p, #[trigger] values@[i], rx),
        tag == 1 ==> forall|i: int| 0 <= i < values@.len() ==> !accepts(p, #[trigger] values@[i], rx),
        tag == 2 ==> exists|i: int| 0 <= i < values@.len() && accepts(p, #[trigger] values@[i], rx),
        tag == 3 ==> exists|i: int| 0 <= i < values@.len() && !accepts(p, #[trigger] values@[i], rx),
        tag <= 3,
    ensures
        accepts(s, JsonValue::Array(values), rx),
    decreases s,
{
    match s.kind {
        SchemaNodeKind::AnyOf(children) => {
            let i = choose|i: int| 0 <= i < children@.len() && items_contains_pred(#[trigger] children@[i], tag, p);
            lemma_items_contains_arm_accepts(children@[i], tag, p, values, rx);
            assert(accepts(children@[i], JsonValue::Array(values), rx));
        },
        SchemaNodeKind::Array { items, contains, .. } => {
            match contains {
                None => {
                    assert forall|i: int| 0 <= i < values@.len() implies accepts(*items, #[trigger] values@[i], rx) by {
                        if tag == 0 {
                            assert(accepts(p, values@[i], rx));
                        } else {
                            assert(!accepts(p, values@[i], rx));
                        }
                    }
                },
                Some(c) => {
                    assert forall|i: int| 0 <= i < values@.len() implies accepts(*items, #[trigger] values@[i], rx) by {
                        lemma_trivially_universal_accepts(*items, values@[i], rx);
                    }
                    if tag == 2 {
                        let k = choose|i: int| 0 <= i < values@.len() && accepts(p, #[trigger] values@[i], rx);
                        lemma_matching_count_positive(*c.schema, values@, k, rx);
                    } else {
                        let k = choose|i: int| 0 <= i < values@.len() && !accepts(p, #[trigger] values@[i], rx);
                        assert(accepts(*c.schema, values@[k], rx));
                        lemma_matching_count_positive(*c.schema, values@, k, rx);
                    }
                },
            }
        },
        _ => {},
    }
}

/// Appends the tagged predicates of the array arms `schema` reaches (see
/// `items_contains_pred`).
fn collect_items_contains_predicates<'a>(schema: &'a SchemaNode, out: &mut Vec<(u8, &'a SchemaNode)>)
    ensures
        final(out)@.len() >= old(out)@.len(),
        forall|k: int| 0 <= k < old(out)@.len() ==> final(out)@[k] == old(out)@[k],
        forall|k: int| old(out)@.len() <= k < final(out)@.len()
            ==> items_contains_pred(*schema, (#[trigger] final(out)@[k]).0, *final(out)@[k].1),
        forall|tag: u8, p: SchemaNode| #[trigger] items_contains_pred(*schema, tag, p) ==> exists|k: int|
            old(out)@.len() <= k < final(out)@.len() && final(out)@[k].0 == tag && *final(out)@[k].1 == p,
    decreases *schema,
{
    let ghost start = out@;
    match &schema.kind {
        SchemaNodeKind::AnyOf(children) => {
            let mut i: usize = 0;
            while i < children.len()
                invariant
                    i <= children@.len(),
                    schema.kind == SchemaNodeKind::AnyOf(*children),
                    out@.len() >= start.len(),
                    forall|k: int| 0 <= k < start.len() ==> out@[k] == start[k],
                    forall|k: int| #![trigger out@[k]] start.len() <= k < out@.len() ==> exists|j: int| 0 <= j < i
                        && items_contains_pred(#[trigger] children@[j], out@[k].0, *out@[k].1),
                    forall|j: int, tag: u8, p: SchemaNode| 0 <= j < i && #[trigger] items_contains_pred(children@[j], tag, p)
                        ==> exists|k: int| start.len() <= k < out@.len() && out@[k].0 == tag && *out@[k].1 == p,
                decreases children@.len() - i,
            {
                proof {
                    assert(decreases_to!(*schema => schema.kind));
                    assert(decreases_to!(schema.kind => schema.kind->AnyOf_0));
                    assert(decreases_to!(*children => children[i as int]));
                }
                let ghost before = out@;
                collect_items_contains_predicates(&children[i], out);
                proof {
                    assert forall|k: int| #![trigger out@[k]] start.len() <= k < out@.len() implies exists|j: int| 0 <= j < i + 1
                        && items_contains_pred(#[trigger] children@[j], out@[k].0, *out@[k].1) by {
                        if k < before.len() {
                            assert(out@[k] == before[k]);
                        } else {
                            assert(items_contains_pred(children@[i as int], out@[k].0, *out@[k].1));
                        }
                    }
                    assert forall|j: int, tag: u8, p: SchemaNode| 0 <= j < i + 1 && #[trigger] items_contains_pred(children@[j], tag, p)
                        implies exists|k: int| start.len() <= k < out@.len() && out@[k].0 == tag && *out@[k].1 == p by {
                        if j < i {
                            let k = choose|k: int| start.len() <= k < before.len() && before[k].0 == tag && *before[k].1 == p;
                            assert(out@[k] == before[k]);
                        }
                    }
                }
                i = i + 1;
            }
            proof {
                assert(schema.kind->AnyOf_0 == *children);
                assert forall|k: int| start.len() <= k < out@.len()
                    implies items_contains_pred(*schema, (#[trigger] out@[k]).0, *out@[k].1) by {
                    let j = choose|j: int| 0 <= j < children@.len() && items_contains_pred(#[trigger] children@[j], out@[k].0, *out@[k].1);
                    assert(items_contains_pred(schema.kind->AnyOf_0@[j], out@[k].0, *out@[k].1));
                }
                assert forall|tag: u8, p: SchemaNode| #[trigger] items_contains_pred(*schema, tag, p) implies exists|k: int|
                    start.len() <= k < out@.len() && out@[k].0 == tag && *out@[k].1 == p by {
                    let j = choose|j: int| 0 <= j < schema.kind->AnyOf_0@.len() && items_contains_pred(#[trigger] schema.kind->AnyOf_0@[j], tag, p);
                    assert(items_contains_pred(children@[j], tag, p));
                }
            }
        },
        SchemaNodeKind::Array { prefix_items, items, item_count, contains, unique_items, enumeration } => {
            if prefix_items.len() != 0 || *unique_items || enumeration.is_some() {
                return;
            }
            match contains {
                None => {
                    if item_count.min == 0 && item_count.max.is_none() && !schema_is_trivially_universal(items) {
                        match &items.kind {
                            SchemaNodeKind::Not(inner) => {
                                out.push((1u8, &**inner));
                            },
                            _ => {
                                out.push((0u8, &**items));
                            },
                        }
                        proof {
                            assert(out@[start.len() as int] == out@.last());
                        }
                    }
                },
                Some(c) => {
                    if schema_is_trivially_universal(items) && item_count.min <= 1 && item_count.max.is_none()
                        && c.count.min <= 1 && c.count.max.is_none() {
                        match &c.schema.kind {
                            SchemaNodeKind::Not(inner) => {
                                out.push((3u8, &**inner));
                                proof {
                                    assert(out@[start.len() as int] == out@.last());
                                }
                            },
                            _ => {
                                if !schema_is_trivially_universal(&c.schema) {
                                    out.push((2u8, &*c.schema));
                                    proof {
                                        assert(out@[start.len() as int] == out@.last());
                                    }
                                }
                            },
                        }
                    }
                },
            }
        },
        _ => {},
    }
}

/// Whether an `anyOf` of `branches` accepts every value: every type other
/// than array is accepted wholesale by some branch, and plain array arms
/// (read through nested `anyOf`s) say "every item satisfies `P`" and "some
/// item satisfies `not Q`", or "every item satisfies `not Q`" and "some
/// item satisfies `P`", with `P` and `Q` obviously equivalent. Then every
/// array falls in one of them.
pub fn any_of_items_contains_partition_is_universal(branches: &[SchemaNode]) -> (r: bool)
    ensures
        r == items_contains_partition(branches@),
        r ==> forall|v: JsonValue, rx: spec_fn(Seq<char>, Seq<char>) -> bool|
            #[trigger] union_accepts(branches@, v, rx),
{
    if !other_types_covered_exec(branches, JSON_TYPE_ARRAY) {
        return false;
    }
    let mut preds: Vec<(u8, &SchemaNode)> = Vec::new();
    let mut i: usize = 0;
    while i < branches.len()
        invariant
            i <= branches@.len(),
            forall|k: int| #![trigger preds@[k]] 0 <= k < preds@.len() ==> exists|j: int| 0 <= j < i
                && items_contains_pred(#[trigger] branches@[j], preds@[k].0, *preds@[k].1),
            forall|j: int, tag: u8, p: SchemaNode| 0 <= j < i && #[trigger] items_contains_pred(branches@[j], tag, p)
                ==> exists|k: int| 0 <= k < preds@.len() && preds@[k].0 == tag && *preds@[k].1 == p,
        decreases branches@.len() - i,
    {
        let ghost before = preds@;
        collect_items_contains_predicates(&branches[i], &mut preds);
        proof {
            assert forall|k: int| #![trigger preds@[k]] 0 <= k < preds@.len() implies exists|j: int| 0 <= j < i + 1
                && items_contains_pred(#[trigger] branches@[j], preds@[k].0, *preds@[k].1) by {
                if k < before.len() {
                    assert(preds@[k] == before[k]);
                } else {
                    assert(items_contains_pred(branches@[i as int], preds@[k].0, *preds@[k].1));
                }
            }
            assert forall|j: int, tag: u8, p: SchemaNode| 0 <= j < i + 1 && #[trigger] items_contains_pred(branches@[j], tag, p)
                implies exists|k: int| 0 <= k < preds@.len() && preds@[k].0 == tag && *preds@[k].1 == p by {
                if j < i {
                    let k = choose|k: int| 0 <= k < before.len() && before[k].0 == tag && *before[k].1 == p;
                    assert(preds@[k] == before[k]);
                }
            }
        }
        i = i + 1;
    }
    proof {
        assert forall|k: int| 0 <= k < preds@.len()
            implies some_items_contains_pred(branches@, (#[trigger] preds@[k]).0, *preds@[k].1) by {
            let j = choose|j: int| 0 <= j < i && items_contains_pred(#[trigger] branches@[j], preds@[k].0, *preds@[k].1);
            assert(items_contains_pred(branches@[j], preds@[k].0, *preds@[k].1));
        }
        assert forall|tag: u8, p: SchemaNode| #[trigger] some_items_contains_pred(branches@, tag, p)
            implies exists|k: int| 0 <= k < preds@.len() && preds@[k].0 == tag && *preds@[k].1 == p by {
            let j = choose|j: int| 0 <= j < branches@.len() && #[trigger] items_contains_pred(branches@[j], tag, p);
            assert(items_contains_pred(branches@[j], tag, p));
        }
    }
    let mut a: usize = 0;
    while a < preds.len()
        invariant
            a <= preds@.len(),
            other_types_covered(branches@, JSON_TYPE_ARRAY),
            forall|k: int| 0 <= k < preds@.len() ==> some_items_contains_pred(branches@, (#[trigger] preds@[k]).0, *preds@[k].1),
            forall|x: int, y: int| 0 <= x < a && 0 <= y < preds@.len() ==> !(
                (#[trigger] preds@[x].0 == 0 && #[trigger] preds@[y].0 == 3 && obviously_equivalent(*preds@[x].1, *preds@[y].1))
                || (preds@[x].0 == 1 && preds@[y].0 == 2 && obviously_equivalent(*preds@[x].1, *preds@[y].1))),
        decreases preds@.len() - a,
    {
        let mut b: usize = 0;
        while b < preds.len()
            invariant
                a < preds@.len(),
                b <= preds@.len(),
                other_types_covered(branches@, JSON_TYPE_ARRAY),
                forall|k: int| 0 <= k < preds@.len() ==> some_items_contains_pred(branches@, (#[trigger] preds@[k]).0, *preds@[k].1),
                forall|x: int, y: int| 0 <= x < a && 0 <= y < preds@.len() ==> !(
                    (#[trigger] preds@[x].0 == 0 && #[trigger] preds@[y].0 == 3 && obviously_equivalent(*preds@[x].1, *preds@[y].1))
                    || (preds@[x].0 == 1 && preds@[y].0 == 2 && obviously_equivalent(*preds@[x].1, *preds@[y].1))),
                forall|y: int| 0 <= y < b ==> !(
                    (preds@[a as int].0 == 0 && (#[trigger] preds@[y]).0 == 3 && obviously_equivalent(*preds@[a as int].1, *preds@[y].1))
                    || (preds@[a as int].0 == 1 && preds@[y].0 == 2 && obviously_equivalent(*preds@[a as int].1, *preds@[y].1))),
            decreases preds@.len() - b,
        {
            let (ta, pa) = preds[a];
            let (tb, pb) = preds[b];
            if ((ta == 0 && tb == 3) || (ta == 1 && tb == 2)) && schemas_obviously_equivalent(pa, pb) {
                proof {
                    assert(some_items_contains_pred(branches@, ta, *pa));
                    assert(some_items_contains_pred(branches@, tb, *pb));
                    lemma_items_contains_universal(branches@, ta, *pa, tb, *pb);
                }
                return true;
            }
            b = b + 1;
        }
        a = a + 1;
    }
    proof {
        assert forall|p: SchemaNode, q: SchemaNode| #[trigger] some_items_contains_pred(branches@, 0, p)
            && #[trigger] some_items_contains_pred(branches@, 3, q) implies !obviously_equivalent(p, q) by {
            let x = choose|k: int| 0 <= k < preds@.len() && preds@[k].0 == 0 && *preds@[k].1 == p;
            let y = choose|k: int| 0 <= k < preds@.len() && preds@[k].0 == 3 && *preds@[k].1 == q;
            assert(preds@[x].0 == 0 && preds@[y].0 == 3);
        }
        assert forall|q: SchemaNode, p: SchemaNode| #[trigger] some_items_contains_pred(branches@, 1, q)
            && #[trigger] some_items_contains_pred(branches@, 2, p) implies !obviously_equivalent(q, p) by {
            let x = choose|k: int| 0 <= k < preds@.len() && preds@[k].0 == 1 && *preds@[k].1 == q;
            let y = choose|k: int| 0 <= k < preds@.len() && preds@[k].0 == 2 && *preds@[k].1 == p;
            assert(preds@[x].0 == 1 && preds@[y].0 == 2);
        }
    }
    false
}

/// Law: a union with every other type covered and a matched pair of
/// "every item" and "some item" predicates accepts every value.
proof fn lemma_items_contains_universal(branches: Seq<SchemaNode>, ta: u8, pa: SchemaNode, tb: u8, pb: SchemaNode)
    requires
        other_types_covered(branches, JSON_TYPE_ARRAY),
        (ta == 0 && tb == 3) || (ta == 1 && tb == 2),
        some_items_contains_pred(branches, ta, pa),
        some_items_contains_pred(branches, tb, pb),
        obviously_equivalent(pa, pb),
    ensures
        items_contains_partition(branches),
        forall|v: JsonValue, rx: spec_fn(Seq<char>, Seq<char>) -> bool|
            #[trigger] union_accepts(branches, v, rx),
{
    {
        let i = choose|j: int| 0 <= j < branches.len() && #[trigger] items_contains_pred(branches[j], ta, pa);
        let j = choose|j: int| 0 <= j < branches.len() && #[trigger] items_contains_pred(branches[j], tb, pb);
        assert forall|v: JsonValue, rx: spec_fn(Seq<char>, Seq<char>) -> bool| #[trigger] union_accepts(branches, v, rx) by {
            if json_type_bit(v) != JSON_TYPE_ARRAY {
                lemma_other_types_accepted(branches, JSON_TYPE_ARRAY, v, rx);
            } else {
                let values = v->Array_0;
                assert forall|x: JsonValue| accepts(pa, x, rx) == accepts(pb, x, rx) by {
                    lemma_obviously_equivalent_accepts(pa, pb, x, rx);
                }
                if ta == 0 {
                    if forall|k: int| 0 <= k < values@.len() ==> accepts(pa, #[trigger] values@[k], rx) {
                        lemma_items_contains_arm_accepts(branches[i], ta, pa, values, rx);
                    } else {
                        let k = choose|k: int| 0 <= k < values@.len() && !accepts(pa, #[trigger] values@[k], rx);
                        assert(!accepts(pb, values@[k], rx));
                        lemma_items_contains_arm_accepts(branches[j], tb, pb, values, rx);
                    }
                } else {
                    if forall|k: int| 0 <= k < values@.len() ==> !accepts(pa, #[trigger] values@[k], rx) {
                        lemma_items_contains_arm_accepts(branches[i], ta, pa, values, rx);
                    } else {
                        let k = choose|k: int| 0 <= k < values@.len() && accepts(pa, #[trigger] values@[k], rx);
                        assert(accepts(pb, values@[k], rx));
                        lemma_items_contains_arm_accepts(branches[j], tb, pb, values, rx);
                    }
                }
            }
        }
    }
}

} // verus!
