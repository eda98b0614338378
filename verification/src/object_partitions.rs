//! Universal unions that split objects: by the name of a lone key (with a
//! sibling arm for larger objects), by the presence of one property, or by
//! the value of one required property; every other JSON type is accepted
//! wholesale by some branch.

use vstd::prelude::*;
use crate::json::{JsonValue, JSON_TYPE_OBJECT, json_type_bit, members_have_key, str_eq, json_wf};
use crate::schema::{SchemaNode, SchemaNodeKind};
use crate::semantics::accepts;
use crate::types::{trivially_universal, schema_is_trivially_universal, lemma_trivially_universal_accepts, may_have_type,
    possible_json_type_mask, lemma_type_facts_sound};
use crate::shape::{plain_count_object, object_schema_is_plain_count};
use crate::partitions::{union_accepts, other_types_covered, other_types_covered_exec};
use crate::anyof_partitions::{is_negation_of, lemma_other_types_accepted};
use crate::oneof_partitions::{properties_only_name, dependencies_force_only, dependencies_triggered_only_by};
use crate::equivalence::{obviously_equivalent, schemas_obviously_equivalent,
    lemma_obviously_equivalent_accepts};

verus! {

/// Whether `s` reaches, through nested `anyOf`s, a plain-count object arm
/// with no maximum and a minimum of at most 2: it accepts every object with
/// two or more members.
pub open spec fn high_count_arm(s: SchemaNode) -> bool
    decreases s,
{
    match s.kind {
        SchemaNodeKind::AnyOf(children) => exists|i: int| 0 <= i < children@.len() && high_count_arm(#[trigger] children@[i]),
        SchemaNodeKind::Object { property_count, .. } =>
            plain_count_object(s) && property_count.max is None && property_count.min <= 2,
        _ => false,
    }
}

/// Whether `s` reaches, through nested `anyOf`s, an object arm constrained
/// only by a `propertyNames` predicate (not trivially universal) and a
/// count range admitting the empty and the one-member object; the predicate
/// is `p` with tag 0, or `not p` with tag 1.
pub open spec fn name_pred(s: SchemaNode, tag: u8, p: SchemaNode) -> bool
    decreases s,
{
    match s.kind {
        SchemaNodeKind::AnyOf(children) => exists|i: int| 0 <= i < children@.len() && name_pred(#[trigger] children@[i], tag, p),
        SchemaNodeKind::Object { properties, pattern_properties, required, additional, property_names, property_count,
            dependent_required, enumeration } => {
            &&& properties@.len() == 0
            &&& pattern_properties@.len() == 0
            &&& required@.len() == 0
            &&& trivially_universal(*additional)
            &&& dependent_required@.len() == 0
            &&& enumeration is None
            &&& property_count.min == 0
            &&& (property_count.max matches Some(m) ==> m >= 1)
            &&& !trivially_universal(*property_names)
            &&& if tag == 0 { *property_names == p && !(p.kind is Not) } else { tag == 1 && is_negation_of(*property_names, p) }
        },
        _ => false,
    }
}

/// Whether some branch has the name predicate `p` in the role `tag`.
pub open spec fn some_name_pred(branches: Seq<SchemaNode>, tag: u8, p: SchemaNode) -> bool {
    exists|j: int| 0 <= j < branches.len() && #[trigger] name_pred(branches[j], tag, p)
}

/// The test `any_of_single_property_name_partition_is_universal` performs:
/// every other type covered, an arm for two or more members, and a name
/// predicate `P` beside a `not Q` with `P` and `Q` obviously equivalent.
pub open spec fn single_name_partition(branches: Seq<SchemaNode>) -> bool {
    &&& other_types_covered(branches, JSON_TYPE_OBJECT)
    &&& exists|j: int| 0 <= j < branches.len() && #[trigger] high_count_arm(branches[j])
    &&& exists|p: SchemaNode, q: SchemaNode| #[trigger] some_name_pred(branches, 0, p)
        && #[trigger] some_name_pred(branches, 1, q) && obviously_equivalent(p, q)
}

/// A high-count arm accepts every object with at least two members.
proof fn lemma_high_count_arm_accepts(s: SchemaNode, members: Vec<(String, JsonValue)>, rx: spec_fn(Seq<char>, Seq<char>) -> bool)
    requires
        high_count_arm(s),
        members@.len() >= 2,
    ensures
        accepts(s, JsonValue::Object(members), rx),
    decreases s,
{
    match s.kind {
        SchemaNodeKind::AnyOf(children) => {
            let i = choose|i: int| 0 <= i < children@.len() && high_count_arm(#[trigger] children@[i]);
            lemma_high_count_arm_accepts(children@[i], members, rx);
            assert(accepts(children@[i], JsonValue::Object(members), rx));
        },
        SchemaNodeKind::Object { additional, property_names, .. } => {
            assert forall|i: int| 0 <= i < members@.len() implies accepts(*additional, (#[trigger] members@[i]).1, rx) by {
                lemma_trivially_universal_accepts(*additional, members@[i].1, rx);
            }
            assert forall|i: int| 0 <= i < members@.len() implies accepts(*property_names, JsonValue::String((#[trigger] members@[i]).0), rx) by {
                lemma_trivially_universal_accepts(*property_names, JsonValue::String(members@[i].0), rx);
            }
        },
        _ => {},
    }
}

/// A name arm accepts every object of at most one member whose key the
/// predicate `p` accepts (tag 0), respectively rejects (tag 1).
proof fn lemma_name_arm_accepts(s: SchemaNode, tag: u8, p: SchemaNode, members: Vec<(String, JsonValue)>, rx: spec_fn(Seq<char>, Seq<char>) -> bool)
    requires
        name_pred(s, tag, p),
        members@.len() <= 1,
        tag == 0 ==> forall|i: int| 0 <= i < members@.len() ==> accepts(p, JsonValue::String((#[trigger] members@[i]).0), rx),
        tag == 1 ==> forall|i: int| 0 <= i < members@.len() ==> !accepts(p, JsonValue::String((#[trigger] members@[i]).0), rx),
    ensures
        accepts(s, JsonValue::Object(members), rx),
    decreases s,
{
    match s.kind {
        SchemaNodeKind::AnyOf(children) => {
            let i = choose|i: int| 0 <= i < children@.len() && name_pred(#[trigger] children@[i], tag, p);
            lemma_name_arm_accepts(children@[i], tag, p, members, rx);
            assert(accepts(children@[i], JsonValue::Object(members), rx));
        },
        SchemaNodeKind::Object { additional, property_names, .. } => {
            assert forall|i: int| 0 <= i < members@.len() implies accepts(*additional, (#[trigger] members@[i]).1, rx) by {
                lemma_trivially_universal_accepts(*additional, members@[i].1, rx);
            }
            assert forall|i: int| 0 <= i < members@.len() implies accepts(*property_names, JsonValue::String((#[trigger] members@[i]).0), rx) by {
                if tag == 0 {
                    assert(accepts(p, JsonValue::String(members@[i].0), rx));
                } else {
                    assert(!accepts(p, JsonValue::String(members@[i].0), rx));
                }
            }
        },
        _ => {},
    }
}

/// Law: a union with every other type covered, a high-count arm and a
/// matched pair of name predicates accepts every value.
proof fn lemma_single_name_universal(branches: Seq<SchemaNode>, h: int, pa: SchemaNode, pb: SchemaNode)
    requires
        other_types_covered(branches, JSON_TYPE_OBJECT),
        0 <= h < branches.len(),
        high_count_arm(branches[h]),
        some_name_pred(branches, 0, pa),
        some_name_pred(branches, 1, pb),
        obviously_equivalent(pa, pb),
    ensures
        single_name_partition(branches),
        forall|v: JsonValue, rx: spec_fn(Seq<char>, Seq<char>) -> bool|
            #[trigger] union_accepts(branches, v, rx),
{
    {
        let i = choose|j: int| 0 <= j < branches.len() && #[trigger] name_pred(branches[j], 0, pa);
        let j = choose|j: int| 0 <= j < branches.len() && #[trigger] name_pred(branches[j], 1, pb);
        assert forall|v: JsonValue, rx: spec_fn(Seq<char>, Seq<char>) -> bool| #[trigger] union_accepts(branches, v, rx) by {
            if json_type_bit(v) != JSON_TYPE_OBJECT {
                lemma_other_types_accepted(branches, JSON_TYPE_OBJECT, v, rx);
            } else {
                let members = v->Object_0;
                if members@.len() >= 2 {
                    lemma_high_count_arm_accepts(branches[h], members, rx);
                } else if forall|k: int| 0 <= k < members@.len() ==> accepts(pa, JsonValue::String((#[trigger] members@[k]).0), rx) {
                    lemma_name_arm_accepts(branches[i], 0, pa, members, rx);
                } else {
                    assert forall|k: int| 0 <= k < members@.len() implies !accepts(pb, JsonValue::String((#[trigger] members@[k]).0), rx) by {
                        lemma_obviously_equivalent_accepts(pa, pb, JsonValue::String(members@[k].0), rx);
                    }
                    lemma_name_arm_accepts(branches[j], 1, pb, members, rx);
                }
            }
        }
    }
}

/// Appends the tagged name predicates of the object arms `schema` reaches,
/// and records in `high` whether it reaches a high-count arm.
fn collect_name_predicates<'a>(schema: &'a SchemaNode, high: &mut bool, out: &mut Vec<(u8, &'a SchemaNode)>)
    ensures
        *final(high) == (*old(high) || high_count_arm(*schema)),
        final(out)@.len() >= old(out)@.len(),
        forall|k: int| 0 <= k < old(out)@.len() ==> final(out)@[k] == old(out)@[k],
        forall|k: int| old(out)@.len() <= k < final(out)@.len()
            ==> name_pred(*schema, (#[trigger] final(out)@[k]).0, *final(out)@[k].1),
        forall|tag: u8, p: SchemaNode| #[trigger] name_pred(*schema, tag, p) ==> exists|k: int|
            old(out)@.len() <= k < final(out)@.len() && final(out)@[k].0 == tag && *final(out)@[k].1 == p,
    decreases *schema,
{
    let ghost start = out@;
    let ghost high_start = *high;
    match &schema.kind {
        SchemaNodeKind::AnyOf(children) => {
            let mut i: usize = 0;
            while i < children.len()
                invariant
                    i <= children@.len(),
                    schema.kind == SchemaNodeKind::AnyOf(*children),
                    *high == (high_start || exists|j: int| 0 <= j < i && high_count_arm(#[trigger] children@[j])),
                    out@.len() >= start.len(),
                    forall|k: int| 0 <= k < start.len() ==> out@[k] == start[k],
                    forall|k: int| #![trigger out@[k]] start.len() <= k < out@.len() ==> exists|j: int| 0 <= j < i
                        && name_pred(#[trigger] children@[j], out@[k].0, *out@[k].1),
                    forall|j: int, tag: u8, p: SchemaNode| 0 <= j < i && #[trigger] name_pred(children@[j], tag, p)
                        ==> exists|k: int| start.len() <= k < out@.len() && out@[k].0 == tag && *out@[k].1 == p,
                decreases children@.len() - i,
            {
                proof {
                    assert(decreases_to!(*schema => schema.kind));
                    assert(decreases_to!(schema.kind => schema.kind->AnyOf_0));
                    assert(decreases_to!(*children => children[i as int]));
                }
                let ghost before = out@;
                let ghost high_before = *high;
                collect_name_predicates(&children[i], high, out);
                proof {
                    if high_count_arm(children@[i as int]) {
                        assert(exists|j: int| 0 <= j < i + 1 && high_count_arm(#[trigger] children@[j]));
                    }
                    if exists|j: int| 0 <= j < i + 1 && high_count_arm(#[trigger] children@[j]) {
                        let j = choose|j: int| 0 <= j < i + 1 && high_count_arm(#[trigger] children@[j]);
                        if j < i {
                            assert(high_before);
                        }
                    }
                    assert forall|k: int| #![trigger out@[k]] start.len() <= k < out@.len() implies exists|j: int| 0 <= j < i + 1
                        && name_pred(#[trigger] children@[j], out@[k].0, *out@[k].1) by {
                        if k < before.len() {
                            assert(out@[k] == before[k]);
                        } else {
                            assert(name_pred(children@[i as int], out@[k].0, *out@[k].1));
                        }
                    }
                    assert forall|j: int, tag: u8, p: SchemaNode| 0 <= j < i + 1 && #[trigger] name_pred(children@[j], tag, p)
                        implies exists|k: int| start.len() <= k < out@.len() && out@[k].0 == tag && *out@[k].1 == p by {
                        if j < i {
                            let k = choose|k: int| start.len() <= k < before.len() && before[k].0 == tag && *before[k].1 == p;
                            assert(out@[k] == before[k]);
                        }
                    }
                }
                i = i + 1;
            }
            proof {
                assert(schema.kind->AnyOf_0 == *children);
                assert forall|k: int| start.len() <= k < out@.len()
                    implies name_pred(*schema, (#[trigger] out@[k]).0, *out@[k].1) by {
                    let j = choose|j: int| 0 <= j < children@.len() && name_pred(#[trigger] children@[j], out@[k].0, *out@[k].1);
                    assert(name_pred(schema.kind->AnyOf_0@[j], out@[k].0, *out@[k].1));
                }
                assert forall|tag: u8, p: SchemaNode| #[trigger] name_pred(*schema, tag, p) implies exists|k: int|
                    start.len() <= k < out@.len() && out@[k].0 == tag && *out@[k].1 == p by {
                    let j = choose|j: int| 0 <= j < schema.kind->AnyOf_0@.len() && name_pred(#[trigger] schema.kind->AnyOf_0@[j], tag, p);
                    assert(name_pred(children@[j], tag, p));
                }
                if high_count_arm(*schema) {
                    let j = choose|j: int| 0 <= j < schema.kind->AnyOf_0@.len() && high_count_arm(#[trigger] schema.kind->AnyOf_0@[j]);
                    assert(high_count_arm(children@[j]));
                }
            }
        },
        SchemaNodeKind::Object { properties, pattern_properties, required, additional, property_names, property_count,
            dependent_required, enumeration } => {
            if object_schema_is_plain_count(schema) && property_count.max.is_none() && property_count.min <= 2 {
                *high = true;
            }
            let admits_one = match property_count.max {
                Some(m) => m >= 1,
                None => true,
            };
            let low_shape = properties.len() == 0 && pattern_properties.len() == 0 && required.len() == 0
                && schema_is_trivially_universal(additional) && dependent_required.len() == 0 && enumeration.is_none()
                && property_count.min == 0 && admits_one;
            if low_shape && !schema_is_trivially_universal(property_names) {
                match &property_names.kind {
                    SchemaNodeKind::Not(inner) => {
                        out.push((1u8, &**inner));
                    },
                    _ => {
                        out.push((0u8, &**property_names));
                    },
                }
                proof {
                    assert(out@[start.len() as int] == out@.last());
                }
            }
        },
        _ => {},
    }
}

/// Whether an `anyOf` of `branches` accepts every value: every type other
/// than object is accepted wholesale by some branch, a plain-count arm takes
/// every object of two or more members, and arms for objects of at most one
/// member carry `propertyNames: P` and `propertyNames: not Q` with `P` and
/// `Q` obviously equivalent. Then every object falls in one of them.
pub fn any_of_single_property_name_partition_is_universal(branches: &[SchemaNode]) -> (r: bool)
    ensures
        r == single_name_partition(branches@),
        r ==> forall|v: JsonValue, rx: spec_fn(Seq<char>, Seq<char>) -> bool|
            #[trigger] union_accepts(branches@, v, rx),
{
    if !other_types_covered_exec(branches, JSON_TYPE_OBJECT) {
        return false;
    }
    let mut high = false;
    let mut preds: Vec<(u8, &SchemaNode)> = Vec::new();
    let mut i: usize = 0;
    while i < branches.len()
        invariant
            i <= branches@.len(),
            high == exists|j: int| 0 <= j < i && high_count_arm(#[trigger] branches@[j]),
            forall|k: int| #![trigger preds@[k]] 0 <= k < preds@.len() ==> exists|j: int| 0 <= j < i
                && name_pred(#[trigger] branches@[j], preds@[k].0, *preds@[k].1),
            forall|j: int, tag: u8, p: SchemaNode| 0 <= j < i && #[trigger] name_pred(branches@[j], tag, p)
                ==> exists|k: int| 0 <= k < preds@.len() && preds@[k].0 == tag && *preds@[k].1 == p,
        decreases branches@.len() - i,
    {
        let ghost before = preds@;
        let ghost high_before = high;
        collect_name_predicates(&branches[i], &mut high, &mut preds);
        proof {
            if high_count_arm(branches@[i as int]) {
                assert(exists|j: int| 0 <= j < i + 1 && high_count_arm(#[trigger] branches@[j]));
            }
            if exists|j: int| 0 <= j < i + 1 && high_count_arm(#[trigger] branches@[j]) {
                let j = choose|j: int| 0 <= j < i + 1 && high_count_arm(#[trigger] branches@[j]);
                if j < i {
                    assert(high_before);
                }
            }
            assert forall|k: int| #![trigger preds@[k]] 0 <= k < preds@.len() implies exists|j: int| 0 <= j < i + 1
                && name_pred(#[trigger] branches@[j], preds@[k].0, *preds@[k].1) by {
                if k < before.len() {
                    assert(preds@[k] == before[k]);
                } else {
                    assert(name_pred(branches@[i as int], preds@[k].0, *preds@[k].1));
                }
            }
            assert forall|j: int, tag: u8, p: SchemaNode| 0 <= j < i + 1 && #[trigger] name_pred(branches@[j], tag, p)
                implies exists|k: int| 0 <= k < preds@.len() && preds@[k].0 == tag && *preds@[k].1 == p by {
                if j < i {
                    let k = choose|k: int| 0 <= k < before.len() && before[k].0 == tag && *before[k].1 == p;
                    assert(preds@[k] == before[k]);
                }
            }
        }
        i = i + 1;
    }
    if !high {
        return false;
    }
    let ghost h = choose|j: int| 0 <= j < branches@.len() && high_count_arm(#[trigger] branches@[j]);
    proof {
        assert forall|k: int| 0 <= k < preds@.len()
            implies some_name_pred(branches@, (#[trigger] preds@[k]).0, *preds@[k].1) by {
            let j = choose|j: int| 0 <= j < i && name_pred(#[trigger] branches@[j], preds@[k].0, *preds@[k].1);
            assert(name_pred(branches@[j], preds@[k].0, *preds@[k].1));
        }
        assert forall|tag: u8, p: SchemaNode| #[trigger] some_name_pred(branches@, tag, p)
            implies exists|k: int| 0 <= k < preds@.len() && preds@[k].0 == tag && *preds@[k].1 == p by {
            let j = choose|j: int| 0 <= j < branches@.len() && #[trigger] name_pred(branches@[j], tag, p);
            assert(name_pred(branches@[j], tag, p));
        }
    }
    let mut a: usize = 0;
    while a < preds.len()
        invariant
            a <= preds@.len(),
            other_types_covered(branches@, JSON_TYPE_OBJECT),
            0 <= h < branches@.len(),
            high_count_arm(branches@[h]),
            forall|k: int| 0 <= k < preds@.len() ==> some_name_pred(branches@, (#[trigger] preds@[k]).0, *preds@[k].1),
            forall|x: int, y: int| 0 <= x < a && 0 <= y < preds@.len() ==> !(
                #[trigger] preds@[x].0 == 0 && #[trigger] preds@[y].0 == 1 && obviously_equivalent(*preds@[x].1, *preds@[y].1)),
        decreases preds@.len() - a,
    {
        let mut b: usize = 0;
        while b < preds.len()
            invariant
                a < preds@.len(),
                b <= preds@.len(),
                other_types_covered(branches@, JSON_TYPE_OBJECT),
                0 <= h < branches@.len(),
                high_count_arm(branches@[h]),
                forall|k: int| 0 <= k < preds@.len() ==> some_name_pred(branches@, (#[trigger] preds@[k]).0, *preds@[k].1),
                forall|x: int, y: int| 0 <= x < a && 0 <= y < preds@.len() ==> !(
                    #[trigger] preds@[x].0 == 0 && #[trigger] preds@[y].0 == 1 && obviously_equivalent(*preds@[x].1, *preds@[y].1)),
                forall|y: int| 0 <= y < b ==> !(
                    preds@[a as int].0 == 0 && (#[trigger] preds@[y]).0 == 1 && obviously_equivalent(*preds@[a as int].1, *preds@[y].1)),
            decreases preds@.len() - b,
        {
            let (ta, pa) = preds[a];
            let (tb, pb) = preds[b];
            if ta == 0 && tb == 1 && schemas_obviously_equivalent(pa, pb) {
                proof {
                    assert(some_name_pred(branches@, ta, *pa));
                    assert(some_name_pred(branches@, tb, *pb));
                    lemma_single_name_universal(branches@, h, *pa, *pb);
                }
                return true;
            }
            b = b + 1;
        }
        a = a + 1;
    }
    proof {
        assert forall|p: SchemaNode, q: SchemaNode| #[trigger] some_name_pred(branches@, 0, p)
            && #[trigger] some_name_pred(branches@, 1, q) implies !obviously_equivalent(p, q) by {
            let x = choose|k: int| 0 <= k < preds@.len() && preds@[k].0 == 0 && *preds@[k].1 == p;
            let y = choose|k: int| 0 <= k < preds@.len() && preds@[k].0 == 1 && *preds@[k].1 == q;
            assert(preds@[x].0 == 0 && preds@[y].0 == 1);
        }
    }
    false
}

/// Whether `s` reaches, through nested `anyOf`s, an object arm that
/// accepts every object having the property `name`: it requires and
/// declares only `name` (with a universal value), allows any other member,
/// needs at most one member, and its `dependentRequired` rules force only
/// `name`.
pub open spec fn with_property_arm(s: SchemaNode, name: Seq<char>) -> bool
    decreases s,
{
    match s.kind {
        SchemaNodeKind::AnyOf(children) => exists|i: int| 0 <= i < children@.len() && with_property_arm(#[trigger] children@[i], name),
        SchemaNodeKind::Object { properties, pattern_properties, required, additional, property_names, property_count,
            dependent_required, enumeration } => {
            &&& forall|r: int| 0 <= r < required@.len() ==> (#[trigger] required@[r])@ == name
            &&& forall|k: int| 0 <= k < properties@.len() ==> (#[trigger] properties@[k]).0@ == name
                && trivially_universal(properties@[k].1)
            &&& pattern_properties@.len() == 0
            &&& trivially_universal(*additional)
            &&& trivially_universal(*property_names)
            &&& property_count.min <= 1
            &&& property_count.max is None
            &&& forall|d: int, k: int| 0 <= d < dependent_required@.len() && 0 <= k < dependent_required@[d].1@.len()
                ==> (#[trigger] dependent_required@[d].1@[k])@ == name
            &&& enumeration is None
        },
        _ => false,
    }
}

/// Whether `s` reaches, through nested `anyOf`s, an object arm that
/// accepts every object lacking the property `name`: it requires nothing,
/// mentions only `name` (in `properties` and as a `dependentRequired`
/// trigger) and is otherwise unconstrained.
pub open spec fn without_property_arm(s: SchemaNode, name: Seq<char>) -> bool
    decreases s,
{
    match s.kind {
        SchemaNodeKind::AnyOf(children) => exists|i: int| 0 <= i < children@.len() && without_property_arm(#[trigger] children@[i], name),
        SchemaNodeKind::Object { properties, pattern_properties, required, additional, property_names, property_count,
            dependent_required, enumeration } => {
            &&& required@.len() == 0
            &&& forall|k: int| 0 <= k < properties@.len() ==> (#[trigger] properties@[k]).0@ == name
            &&& pattern_properties@.len() == 0
            &&& trivially_universal(*additional)
            &&& trivially_universal(*property_names)
            &&& property_count.min == 0
            &&& property_count.max is None
            &&& forall|d: int| 0 <= d < dependent_required@.len() ==> (#[trigger] dependent_required@[d]).0@ == name
            &&& enumeration is None
        },
        _ => false,
    }
}

/// The names an object schema reached through nested `anyOf`s puts
/// forward: its single required name, its declared property names, and the
/// names its `dependentRequired` rules force.
pub open spec fn candidate_name(s: SchemaNode, name: Seq<char>) -> bool
    decreases s,
{
    match s.kind {
        SchemaNodeKind::AnyOf(children) => exists|i: int| 0 <= i < children@.len() && candidate_name(#[trigger] children@[i], name),
        SchemaNodeKind::Object { properties, required, dependent_required, .. } => {
            ||| required@.len() == 1 && required@[0]@ == name
            ||| exists|k: int| 0 <= k < properties@.len() && (#[trigger] properties@[k]).0@ == name
            ||| exists|d: int, k: int| 0 <= d < dependent_required@.len() && 0 <= k < dependent_required@[d].1@.len()
                && (#[trigger] dependent_required@[d].1@[k])@ == name
        },
        _ => false,
    }
}

/// Whether some branch puts `name` forward.
pub open spec fn some_candidate(branches: Seq<SchemaNode>, name: Seq<char>) -> bool {
    exists|j: int| 0 <= j < branches.len() && #[trigger] candidate_name(branches[j], name)
}

/// Whether some branch puts `name` forward, some branch accepts every
/// object having it, and some branch every object lacking it.
pub open spec fn presence_split(branches: Seq<SchemaNode>, name: Seq<char>) -> bool {
    &&& some_candidate(branches, name)
    &&& exists|j: int| 0 <= j < branches.len() && #[trigger] with_property_arm(branches[j], name)
    &&& exists|j: int| 0 <= j < branches.len() && #[trigger] without_property_arm(branches[j], name)
}

/// The test `any_of_property_presence_cover_is_universal` performs.
pub open spec fn presence_cover(branches: Seq<SchemaNode>) -> bool {
    other_types_covered(branches, JSON_TYPE_OBJECT) && exists|name: Seq<char>| #[trigger] presence_split(branches, name)
}

/// An arm for objects having `name` accepts each of them.
proof fn lemma_with_property_arm_accepts(s: SchemaNode, name: Seq<char>, members: Vec<(String, JsonValue)>, rx: spec_fn(Seq<char>, Seq<char>) -> bool)
    requires
        with_property_arm(s, name),
        members_have_key(members@, name),
    ensures
        accepts(s, JsonValue::Object(members), rx),
    decreases s,
{
    match s.kind {
        SchemaNodeKind::AnyOf(children) => {
            let i = choose|i: int| 0 <= i < children@.len() && with_property_arm(#[trigger] children@[i], name);
            lemma_with_property_arm_accepts(children@[i], name, members, rx);
            assert(accepts(children@[i], JsonValue::Object(members), rx));
        },
        SchemaNodeKind::Object { properties, additional, property_names, .. } => {
            assert forall|i: int, j: int| 0 <= i < members@.len() && 0 <= j < properties@.len()
                && (#[trigger] members@[i]).0@ == (#[trigger] properties@[j]).0@
                implies accepts(properties@[j].1, members@[i].1, rx) by {
                lemma_trivially_universal_accepts(properties@[j].1, members@[i].1, rx);
            }
            assert forall|i: int| 0 <= i < members@.len() implies accepts(*additional, (#[trigger] members@[i]).1, rx) by {
                lemma_trivially_universal_accepts(*additional, members@[i].1, rx);
            }
            assert forall|i: int| 0 <= i < members@.len() implies accepts(*property_names, JsonValue::String((#[trigger] members@[i]).0), rx) by {
                lemma_trivially_universal_accepts(*property_names, JsonValue::String(members@[i].0), rx);
            }
        },
        _ => {},
    }
}

/// An arm for objects lacking `name` accepts each of them.
proof fn lemma_without_property_arm_accepts(s: SchemaNode, name: Seq<char>, members: Vec<(String, JsonValue)>, rx: spec_fn(Seq<char>, Seq<char>) -> bool)
    requires
        without_property_arm(s, name),
        !members_have_key(members@, name),
    ensures
        accepts(s, JsonValue::Object(members), rx),
    decreases s,
{
    match s.kind {
        SchemaNodeKind::AnyOf(children) => {
            let i = choose|i: int| 0 <= i < children@.len() && without_property_arm(#[trigger] children@[i], name);
            lemma_without_property_arm_accepts(children@[i], name, members, rx);
            assert(accepts(children@[i], JsonValue::Object(members), rx));
        },
        SchemaNodeKind::Object { properties, additional, property_names, .. } => {
            assert forall|i: int, j: int| 0 <= i < members@.len() && 0 <= j < properties@.len()
                && (#[trigger] members@[i]).0@ == (#[trigger] properties@[j]).0@
                implies accepts(properties@[j].1, members@[i].1, rx) by {
                assert(members_have_key(members@, name));
            }
            assert forall|i: int| 0 <= i < members@.len() implies accepts(*additional, (#[trigger] members@[i]).1, rx) by {
                lemma_trivially_universal_accepts(*additional, members@[i].1, rx);
            }
            assert forall|i: int| 0 <= i < members@.len() implies accepts(*property_names, JsonValue::String((#[trigger] members@[i]).0), rx) by {
                lemma_trivially_universal_accepts(*property_names, JsonValue::String(members@[i].0), rx);
            }
        },
        _ => {},
    }
}

/// Law: a union with every other type covered and a presence split on one
/// name accepts every value.
proof fn lemma_presence_cover_universal(branches: Seq<SchemaNode>, name: Seq<char>)
    requires
        other_types_covered(branches, JSON_TYPE_OBJECT),
        presence_split(branches, name),
    ensures
        presence_cover(branches),
        forall|v: JsonValue, rx: spec_fn(Seq<char>, Seq<char>) -> bool| #[trigger] union_accepts(branches, v, rx),
{
    let i = choose|j: int| 0 <= j < branches.len() && #[trigger] with_property_arm(branches[j], name);
    let j = choose|j: int| 0 <= j < branches.len() && #[trigger] without_property_arm(branches[j], name);
    assert forall|v: JsonValue, rx: spec_fn(Seq<char>, Seq<char>) -> bool| #[trigger] union_accepts(branches, v, rx) by {
        if json_type_bit(v) != JSON_TYPE_OBJECT {
            lemma_other_types_accepted(branches, JSON_TYPE_OBJECT, v, rx);
        } else {
            let members = v->Object_0;
            if members_have_key(members@, name) {
                lemma_with_property_arm_accepts(branches[i], name, members, rx);
            } else {
                lemma_without_property_arm_accepts(branches[j], name, members, rx);
            }
        }
    }
}

/// Whether every required name is `name`.
fn required_only_name(required: &Vec<String>, name: &str) -> (r: bool)
    ensures
        r == forall|k: int| 0 <= k < required@.len() ==> (#[trigger] required@[k])@ == name@,
{
    let mut k: usize = 0;
    while k < required.len()
        invariant
            k <= required@.len(),
            forall|j: int| 0 <= j < k ==> (#[trigger] required@[j])@ == name@,
        decreases required@.len() - k,
    {
        if !str_eq(required[k].as_str(), name) {
            return false;
        }
        k = k + 1;
    }
    true
}

/// Whether `schema` accepts, by its shape, every object having `name`
/// (see `with_property_arm`).
fn schema_accepts_all_with_property(schema: &SchemaNode, name: &str) -> (r: bool)
    ensures
        r == with_property_arm(*schema, name@),
    decreases *schema,
{
    match &schema.kind {
        SchemaNodeKind::AnyOf(children) => {
            let mut i: usize = 0;
            while i < children.len()
                invariant
                    i <= children@.len(),
                    schema.kind == SchemaNodeKind::AnyOf(*children),
                    forall|k: int| 0 <= k < i ==> !with_property_arm(#[trigger] children@[k], name@),
                decreases children@.len() - i,
            {
                proof {
                    assert(decreases_to!(*schema => schema.kind));
                    assert(decreases_to!(schema.kind => schema.kind->AnyOf_0));
                    assert(decreases_to!(*children => children[i as int]));
                }
                if schema_accepts_all_with_property(&children[i], name) {
                    return true;
                }
                i = i + 1;
            }
            false
        },
        SchemaNodeKind::Object { properties, pattern_properties, required, additional, property_names, property_count,
            dependent_required, enumeration } => {
            required_only_name(required, name) && properties_only_name(properties, name, true)
                && pattern_properties.len() == 0 && schema_is_trivially_universal(additional)
                && schema_is_trivially_universal(property_names) && property_count.min <= 1
                && property_count.max.is_none() && dependencies_force_only(dependent_required, name)
                && enumeration.is_none()
        },
        _ => false,
    }
}

/// Whether `schema` accepts, by its shape, every object lacking `name`
/// (see `without_property_arm`).
fn schema_accepts_all_without_property(schema: &SchemaNode, name: &str) -> (r: bool)
    ensures
        r == without_property_arm(*schema, name@),
    decreases *schema,
{
    match &schema.kind {
        SchemaNodeKind::AnyOf(children) => {
            let mut i: usize = 0;
            while i < children.len()
                invariant
                    i <= children@.len(),
                    schema.kind == SchemaNodeKind::AnyOf(*children),
                    forall|k: int| 0 <= k < i ==> !without_property_arm(#[trigger] children@[k], name@),
                decreases children@.len() - i,
            {
                proof {
                    assert(decreases_to!(*schema => schema.kind));
                    assert(decreases_to!(schema.kind => schema.kind->AnyOf_0));
                    assert(decreases_to!(*children => children[i as int]));
                }
                if schema_accepts_all_without_property(&children[i], name) {
                    return true;
                }
                i = i + 1;
            }
            false
        },
        SchemaNodeKind::Object { properties, pattern_properties, required, additional, property_names, property_count,
            dependent_required, enumeration } => {
            required.len() == 0 && properties_only_name(properties, name, false)
                && pattern_properties.len() == 0 && schema_is_trivially_universal(additional)
                && schema_is_trivially_universal(property_names) && property_count.min == 0
                && property_count.max.is_none() && dependencies_triggered_only_by(dependent_required, name)
                && enumeration.is_none()
        },
        _ => false,
    }
}

/// Whether `name` stands in `out` at or after position `from`.
pub open spec fn name_listed(out: Seq<String>, from: int, name: Seq<char>) -> bool {
    exists|j: int| from <= j < out.len() && (#[trigger] out[j])@ == name
}

/// Appends the names `schema` puts forward (see `candidate_name`).
fn collect_candidate_names(schema: &SchemaNode, out: &mut Vec<String>)
    ensures
        final(out)@.len() >= old(out)@.len(),
        forall|k: int| 0 <= k < old(out)@.len() ==> final(out)@[k] == old(out)@[k],
        forall|k: int| old(out)@.len() <= k < final(out)@.len() ==> candidate_name(*schema, (#[trigger] final(out)@[k])@),
        forall|name: Seq<char>| #[trigger] candidate_name(*schema, name) ==> exists|k: int|
            old(out)@.len() <= k < final(out)@.len() && final(out)@[k]@ == name,
    decreases *schema,
{
    let ghost start = out@;
    match &schema.kind {
        SchemaNodeKind::AnyOf(children) => {
            let mut i: usize = 0;
            while i < children.len()
                invariant
                    i <= children@.len(),
                    schema.kind == SchemaNodeKind::AnyOf(*children),
                    out@.len() >= start.len(),
                    forall|k: int| 0 <= k < start.len() ==> out@[k] == start[k],
                    forall|k: int| #![trigger out@[k]] start.len() <= k < out@.len() ==> exists|j: int| 0 <= j < i
                        && candidate_name(#[trigger] children@[j], out@[k]@),
                    forall|j: int, name: Seq<char>| 0 <= j < i && #[trigger] candidate_name(children@[j], name)
                        ==> exists|k: int| start.len() <= k < out@.len() && out@[k]@ == name,
                decreases children@.len() - i,
            {
                proof {
                    assert(decreases_to!(*schema => schema.kind));
                    assert(decreases_to!(schema.kind => schema.kind->AnyOf_0));
                    assert(decreases_to!(*children => children[i as int]));
                }
                let ghost before = out@;
                collect_candidate_names(&children[i], out);
                proof {
                    assert forall|k: int| #![trigger out@[k]] start.len() <= k < out@.len() implies exists|j: int| 0 <= j < i + 1
                        && candidate_name(#[trigger] children@[j], out@[k]@) by {
                        if k < before.len() {
                            assert(out@[k] == before[k]);
                        } else {
                            assert(candidate_name(children@[i as int], out@[k]@));
                        }
                    }
                    assert forall|j: int, name: Seq<char>| 0 <= j < i + 1 && #[trigger] candidate_name(children@[j], name)
                        implies exists|k: int| start.len() <= k < out@.len() && out@[k]@ == name by {
                        if j < i {
                            let k = choose|k: int| start.len() <= k < before.len() && before[k]@ == name;
                            assert(out@[k] == before[k]);
                        }
                    }
                }
                i = i + 1;
            }
            proof {
                assert(schema.kind->AnyOf_0 == *children);
                assert forall|k: int| start.len() <= k < out@.len() implies candidate_name(*schema, (#[trigger] out@[k])@) by {
                    let j = choose|j: int| 0 <= j < children@.len() && candidate_name(#[trigger] children@[j], out@[k]@);
                    assert(candidate_name(schema.kind->AnyOf_0@[j], out@[k]@));
                }
                assert forall|name: Seq<char>| #[trigger] candidate_name(*schema, name) implies exists|k: int|
                    start.len() <= k < out@.len() && out@[k]@ == name by {
                    let j = choose|j: int| 0 <= j < schema.kind->AnyOf_0@.len() && candidate_name(#[trigger] schema.kind->AnyOf_0@[j], name);
                    assert(candidate_name(children@[j], name));
                }
            }
        },
        SchemaNodeKind::Object { properties, required, dependent_required, .. } => {
            if required.len() == 1 {
                out.push(required[0].clone());
                proof {
                    assert(out@[start.len() as int] == out@.last());
                }
            }
            let mut k: usize = 0;
            while k < properties.len()
                invariant
                    k <= properties@.len(),
                    schema.kind matches SchemaNodeKind::Object { properties: ps, required: rs, dependent_required: ds, .. }
                        && ps == *properties && rs == *required && ds == *dependent_required,
                    out@.len() >= start.len(),
                    forall|j: int| 0 <= j < start.len() ==> out@[j] == start[j],
                    forall|j: int| start.len() <= j < out@.len() ==> candidate_name(*schema, (#[trigger] out@[j])@),
                    required@.len() == 1 ==> name_listed(out@, start.len() as int, required@[0]@),
                    forall|p: int| 0 <= p < k ==> name_listed(out@, start.len() as int, (#[trigger] properties@[p]).0@),
                decreases properties@.len() - k,
            {
                let ghost before = out@;
                proof {
                    assert(candidate_name(*schema, properties@[k as int].0@));
                }
                out.push(properties[k].0.clone());
                proof {
                    assert forall|j: int| start.len() <= j < out@.len() implies candidate_name(*schema, (#[trigger] out@[j])@) by {
                        if j < before.len() {
                            assert(out@[j] == before[j]);
                        }
                    }
                    if required@.len() == 1 {
                        let j = choose|j: int| start.len() <= j < before.len() && (#[trigger] before[j])@ == required@[0]@;
                        assert(out@[j] == before[j]);
                    }
                    assert forall|p: int| 0 <= p < k + 1 implies name_listed(out@, start.len() as int, (#[trigger] properties@[p]).0@) by {
                        if p < k {
                            let j = choose|j: int| start.len() <= j < before.len() && (#[trigger] before[j])@ == properties@[p].0@;
                            assert(out@[j] == before[j]);
                        } else {
                            assert(out@[before.len() as int]@ == properties@[p].0@);
                        }
                    }
                }
                k = k + 1;
            }
            let mut d: usize = 0;
            while d < dependent_required.len()
                invariant
                    d <= dependent_required@.len(),
                    schema.kind matches SchemaNodeKind::Object { properties: ps, required: rs, dependent_required: ds, .. }
                        && ps == *properties && rs == *required && ds == *dependent_required,
                    out@.len() >= start.len(),
                    forall|j: int| 0 <= j < start.len() ==> out@[j] == start[j],
                    forall|j: int| start.len() <= j < out@.len() ==> candidate_name(*schema, (#[trigger] out@[j])@),
                    required@.len() == 1 ==> name_listed(out@, start.len() as int, required@[0]@),
                    forall|p: int| 0 <= p < properties@.len() ==> name_listed(out@, start.len() as int, (#[trigger] properties@[p]).0@),
                    forall|e: int, t: int| 0 <= e < d && 0 <= t < dependent_required@[e].1@.len()
                        ==> name_listed(out@, start.len() as int, (#[trigger] dependent_required@[e].1@[t])@),
                decreases dependent_required@.len() - d,
            {
                let deps = &dependent_required[d].1;
                let ghost at_rule = out@;
                let mut t: usize = 0;
                while t < deps.len()
                    invariant
                        t <= deps@.len(),
                        d < dependent_required@.len(),
                        *deps == dependent_required@[d as int].1,
                        schema.kind matches SchemaNodeKind::Object { properties: ps, required: rs, dependent_required: ds, .. }
                            && ps == *properties && rs == *required && ds == *dependent_required,
                        out@.len() >= at_rule.len(),
                        at_rule.len() >= start.len(),
                        forall|j: int| 0 <= j < at_rule.len() ==> out@[j] == at_rule[j],
                        forall|j: int| start.len() <= j < out@.len() ==> candidate_name(*schema, (#[trigger] out@[j])@),
                        forall|u: int| 0 <= u < t ==> name_listed(out@, start.len() as int, (#[trigger] deps@[u])@),
                    decreases deps@.len() - t,
                {
                    let ghost before = out@;
                    proof {
                        assert(dependent_required@[d as int].1@[t as int] == deps@[t as int]);
                        assert(candidate_name(*schema, deps@[t as int]@));
                    }
                    out.push(deps[t].clone());
                    proof {
                        assert forall|j: int| start.len() <= j < out@.len() implies candidate_name(*schema, (#[trigger] out@[j])@) by {
                            if j < before.len() {
                                assert(out@[j] == before[j]);
                            }
                        }
                        assert forall|u: int| 0 <= u < t + 1 implies name_listed(out@, start.len() as int, (#[trigger] deps@[u])@) by {
                            if u < t {
                                let j = choose|j: int| start.len() <= j < before.len() && (#[trigger] before[j])@ == deps@[u]@;
                                assert(out@[j] == before[j]);
                            } else {
                                assert(out@[before.len() as int]@ == deps@[u]@);
                            }
                        }
                    }
                    t = t + 1;
                }
                proof {
                    if required@.len() == 1 {
                        let j = choose|j: int| start.len() <= j < at_rule.len() && (#[trigger] at_rule[j])@ == required@[0]@;
                        assert(out@[j] == at_rule[j]);
                    }
                    assert forall|p: int| 0 <= p < properties@.len() implies name_listed(out@, start.len() as int, (#[trigger] properties@[p]).0@) by {
                        let j = choose|j: int| start.len() <= j < at_rule.len() && (#[trigger] at_rule[j])@ == properties@[p].0@;
                        assert(out@[j] == at_rule[j]);
                    }
                    assert forall|e: int, u: int| 0 <= e < d + 1 && 0 <= u < dependent_required@[e].1@.len()
                        implies name_listed(out@, start.len() as int, (#[trigger] dependent_required@[e].1@[u])@) by {
                        if e < d {
                            let j = choose|j: int| start.len() <= j < at_rule.len() && (#[trigger] at_rule[j])@ == dependent_required@[e].1@[u]@;
                            assert(out@[j] == at_rule[j]);
                        } else {
                            assert(deps@[u] == dependent_required@[e].1@[u]);
                        }
                    }
                }
                d = d + 1;
            }
            proof {
                assert forall|name: Seq<char>| #[trigger] candidate_name(*schema, name) implies exists|k: int|
                    start.len() <= k < out@.len() && out@[k]@ == name by {
                    if required@.len() == 1 && required@[0]@ == name {
                    } else if exists|p: int| 0 <= p < properties@.len() && (#[trigger] properties@[p]).0@ == name {
                        let p = choose|p: int| 0 <= p < properties@.len() && (#[trigger] properties@[p]).0@ == name;
                        assert(name_listed(out@, start.len() as int, properties@[p].0@));
                    } else {
                        let (e, u) = choose|e: int, u: int| 0 <= e < dependent_required@.len() && 0 <= u < dependent_required@[e].1@.len()
                            && (#[trigger] dependent_required@[e].1@[u])@ == name;
                        assert(name_listed(out@, start.len() as int, dependent_required@[e].1@[u]@));
                    }
                }
            }
        },
        _ => {},
    }
}

/// Whether some branch accepts, by its shape, every object having `name`.
fn any_branch_accepts_all_with(branches: &[SchemaNode], name: &str) -> (r: bool)
    ensures
        r == exists|j: int| 0 <= j < branches@.len() && #[trigger] with_property_arm(branches@[j], name@),
{
    let mut j: usize = 0;
    while j < branches.len()
        invariant
            j <= branches@.len(),
            forall|k: int| 0 <= k < j ==> !#[trigger] with_property_arm(branches@[k], name@),
        decreases branches@.len() - j,
    {
        if schema_accepts_all_with_property(&branches[j], name) {
            return true;
        }
        j = j + 1;
    }
    false
}

/// Whether some branch accepts, by its shape, every object lacking `name`.
fn any_branch_accepts_all_without(branches: &[SchemaNode], name: &str) -> (r: bool)
    ensures
        r == exists|j: int| 0 <= j < branches@.len() && #[trigger] without_property_arm(branches@[j], name@),
{
    let mut j: usize = 0;
    while j < branches.len()
        invariant
            j <= branches@.len(),
            forall|k: int| 0 <= k < j ==> !#[trigger] without_property_arm(branches@[k], name@),
        decreases branches@.len() - j,
    {
        if schema_accepts_all_without_property(&branches[j], name) {
            return true;
        }
        j = j + 1;
    }
    false
}

/// The names the branches put forward (see `candidate_name`).
fn collect_all_candidate_names(branches: &[SchemaNode]) -> (names: Vec<String>)
    ensures
        forall|t: int| 0 <= t < names@.len() ==> some_candidate(branches@, (#[trigger] names@[t])@),
        forall|j: int, name: Seq<char>| 0 <= j < branches@.len() && #[trigger] candidate_name(branches@[j], name)
            ==> exists|k: int| 0 <= k < names@.len() && names@[k]@ == name,
{
    let mut names: Vec<String> = Vec::new();
    let mut i: usize = 0;
    while i < branches.len()
        invariant
            i <= branches@.len(),
            forall|k: int| #![trigger names@[k]] 0 <= k < names@.len() ==> exists|j: int| 0 <= j < i
                && candidate_name(#[trigger] branches@[j], names@[k]@),
            forall|j: int, name: Seq<char>| 0 <= j < i && #[trigger] candidate_name(branches@[j], name)
                ==> exists|k: int| 0 <= k < names@.len() && names@[k]@ == name,
        decreases branches@.len() - i,
    {
        let ghost before = names@;
        collect_candidate_names(&branches[i], &mut names);
        proof {
            assert forall|k: int| #![trigger names@[k]] 0 <= k < names@.len() implies exists|j: int| 0 <= j < i + 1
                && candidate_name(#[trigger] branches@[j], names@[k]@) by {
                if k < before.len() {
                    assert(names@[k] == before[k]);
                } else {
                    assert(candidate_name(branches@[i as int], names@[k]@));
                }
            }
            assert forall|j: int, name: Seq<char>| 0 <= j < i + 1 && #[trigger] candidate_name(branches@[j], name)
                implies exists|k: int| 0 <= k < names@.len() && names@[k]@ == name by {
                if j < i {
                    let k = choose|k: int| 0 <= k < before.len() && before[k]@ == name;
                    assert(names@[k] == before[k]);
                }
            }
        }
        i = i + 1;
    }
    proof {
        assert forall|t: int| 0 <= t < names@.len() implies some_candidate(branches@, (#[trigger] names@[t])@) by {
            let j = choose|j: int| 0 <= j < i && candidate_name(#[trigger] branches@[j], names@[t]@);
            assert(candidate_name(branches@[j], names@[t]@));
        }
    }
    names
}

/// Whether an `anyOf` of `branches` accepts every value: every type other
/// than object is accepted wholesale by some branch, and for some name put
/// forward by an object arm, one branch accepts every object having it and
/// another every object lacking it.
pub fn any_of_property_presence_cover_is_universal(branches: &[SchemaNode]) -> (r: bool)
    ensures
        r == presence_cover(branches@),
        r ==> forall|v: JsonValue, rx: spec_fn(Seq<char>, Seq<char>) -> bool| #[trigger] union_accepts(branches@, v, rx),
{
    if !other_types_covered_exec(branches, JSON_TYPE_OBJECT) {
        return false;
    }
    let names = collect_all_candidate_names(branches);
    let mut k: usize = 0;
    while k < names.len()
        invariant
            k <= names@.len(),
            other_types_covered(branches@, JSON_TYPE_OBJECT),
            forall|t: int| 0 <= t < names@.len() ==> some_candidate(branches@, (#[trigger] names@[t])@),
            forall|t: int| 0 <= t < k ==> !presence_split(branches@, (#[trigger] names@[t])@),
        decreases names@.len() - k,
    {
        let name = names[k].as_str();
        if any_branch_accepts_all_with(branches, name) && any_branch_accepts_all_without(branches, name) {
            proof {
                assert(some_candidate(branches@, names@[k as int]@));
                assert(presence_split(branches@, name@));
                lemma_presence_cover_universal(branches@, name@);
            }
            return true;
        }
        proof {
            assert(!presence_split(branches@, names@[k as int]@));
        }
        k = k + 1;
    }
    proof {
        assert forall|name: Seq<char>| !#[trigger] presence_split(branches@, name) by {
            if presence_split(branches@, name) {
                let t = choose|t: int| 0 <= t < names@.len() && names@[t]@ == name;
                assert(!presence_split(branches@, names@[t]@));
            }
        }
    }
    false
}

/// The name a plain presence object requires: it requires exactly one
/// name, declares only that name (with a universal value), allows any other
/// member, needs at most one member, and has no other constraint.
pub open spec fn plain_presence_name(s: SchemaNode) -> Option<Seq<char>> {
    match s.kind {
        SchemaNodeKind::Object { properties, pattern_properties, required, additional, property_names, property_count,
            dependent_required, enumeration } => {
            if required@.len() == 1 && pattern_properties@.len() == 0 && trivially_universal(*additional)
                && trivially_universal(*property_names) && property_count.min <= 1 && property_count.max is None
                && dependent_required@.len() == 0 && enumeration is None
                && forall|k: int| 0 <= k < properties@.len() ==> (#[trigger] properties@[k]).0@ == required@[0]@
                    && trivially_universal(properties@[k].1) {
                Some(required@[0]@)
            } else {
                None
            }
        },
        _ => None,
    }
}

/// Whether the branches of a union that may take objects exist and are all
/// plain presence objects for `name`.
pub open spec fn union_presence(children: Seq<SchemaNode>, name: Seq<char>) -> bool {
    &&& exists|i: int| 0 <= i < children.len() && #[trigger] may_have_type(children[i], JSON_TYPE_OBJECT)
    &&& forall|i: int| 0 <= i < children.len() && #[trigger] may_have_type(children[i], JSON_TYPE_OBJECT)
        ==> plain_presence_name(children[i]) == Some(name)
}

/// The name whose presence `s` tests: that of a plain presence object, or
/// of all the object branches of an `anyOf`.
pub open spec fn presence_test_name(s: SchemaNode) -> Option<Seq<char>> {
    match s.kind {
        SchemaNodeKind::Object { .. } => plain_presence_name(s),
        SchemaNodeKind::AnyOf(children) => if exists|name: Seq<char>| #[trigger] union_presence(children@, name) {
            Some(choose|name: Seq<char>| #[trigger] union_presence(children@, name))
        } else {
            None
        },
        _ => None,
    }
}

/// Whether `s` reaches, through nested `anyOf`s, an arm `not T` where `T`
/// tests the presence of `name`: it accepts every object lacking `name`.
pub open spec fn absence_arm(s: SchemaNode, name: Seq<char>) -> bool
    decreases s,
{
    match s.kind {
        SchemaNodeKind::AnyOf(children) => exists|i: int| 0 <= i < children@.len() && absence_arm(#[trigger] children@[i], name),
        SchemaNodeKind::Not(inner) => presence_test_name(*inner) == Some(name),
        _ => false,
    }
}

/// Whether `s` reaches, through nested `anyOf`s, a plain object arm that
/// requires `name` and declares it alone, with value schema `p`
/// (`positive`) or `not p` (not `positive`).
pub open spec fn value_arm(s: SchemaNode, name: Seq<char>, positive: bool, p: SchemaNode) -> bool
    decreases s,
{
    match s.kind {
        SchemaNodeKind::AnyOf(children) => exists|i: int| 0 <= i < children@.len() && value_arm(#[trigger] children@[i], name, positive, p),
        SchemaNodeKind::Object { properties, pattern_properties, required, additional, property_names, property_count,
            dependent_required, enumeration } => {
            &&& required@.len() == 1
            &&& properties@.len() == 1
            &&& pattern_properties@.len() == 0
            &&& trivially_universal(*additional)
            &&& trivially_universal(*property_names)
            &&& property_count.min <= 1
            &&& property_count.max is None
            &&& dependent_required@.len() == 0
            &&& enumeration is None
            &&& required@[0]@ == name
            &&& properties@[0].0@ == name
            &&& if positive { properties@[0].1 == p && !(p.kind is Not) } else { is_negation_of(properties@[0].1, p) }
        },
        _ => false,
    }
}

/// Whether some branch is an absence arm for `name`.
pub open spec fn some_absence_arm(branches: Seq<SchemaNode>, name: Seq<char>) -> bool {
    exists|j: int| 0 <= j < branches.len() && #[trigger] absence_arm(branches[j], name)
}

/// Whether some branch is a value arm for `name` with `p`.
pub open spec fn some_value_arm(branches: Seq<SchemaNode>, name: Seq<char>, positive: bool, p: SchemaNode) -> bool {
    exists|j: int| 0 <= j < branches.len() && #[trigger] value_arm(branches[j], name, positive, p)
}

/// The three-way split on `name`: an absence arm, and value arms with `P`
/// and `not Q`, `P` and `Q` obviously equivalent.
pub open spec fn value_split(branches: Seq<SchemaNode>, name: Seq<char>, p: SchemaNode, q: SchemaNode) -> bool {
    some_absence_arm(branches, name) && some_value_arm(branches, name, true, p) && some_value_arm(branches, name, false, q)
        && obviously_equivalent(p, q)
}

/// The test `any_of_required_property_value_partition_is_universal` performs.
pub open spec fn required_value_partition(branches: Seq<SchemaNode>) -> bool {
    other_types_covered(branches, JSON_TYPE_OBJECT)
        && exists|name: Seq<char>, p: SchemaNode, q: SchemaNode| #[trigger] value_split(branches, name, p, q)
}

/// A presence test for `name` rejects every object lacking `name`.
proof fn lemma_presence_test_rejects(s: SchemaNode, name: Seq<char>, members: Vec<(String, JsonValue)>, rx: spec_fn(Seq<char>, Seq<char>) -> bool)
    requires
        presence_test_name(s) == Some(name),
        !members_have_key(members@, name),
    ensures
        !accepts(s, JsonValue::Object(members), rx),
{
    match s.kind {
        SchemaNodeKind::AnyOf(children) => {
            let n = choose|n: Seq<char>| #[trigger] union_presence(children@, n);
            assert(n == name);
            assert forall|i: int| 0 <= i < children@.len() implies !accepts(#[trigger] children@[i], JsonValue::Object(members), rx) by {
                lemma_type_facts_sound(children@[i], JsonValue::Object(members), rx);
                if may_have_type(children@[i], JSON_TYPE_OBJECT) {
                    assert(plain_presence_name(children@[i]) == Some(name));
                    match children@[i].kind {
                        SchemaNodeKind::Object { required, .. } => {
                            assert(!members_have_key(members@, required@[0]@));
                        },
                        _ => {},
                    }
                }
            }
        },
        SchemaNodeKind::Object { required, .. } => {
            assert(!members_have_key(members@, required@[0]@));
        },
        _ => {},
    }
}

/// An absence arm accepts every object lacking `name`.
proof fn lemma_absence_arm_accepts(s: SchemaNode, name: Seq<char>, members: Vec<(String, JsonValue)>, rx: spec_fn(Seq<char>, Seq<char>) -> bool)
    requires
        absence_arm(s, name),
        !members_have_key(members@, name),
    ensures
        accepts(s, JsonValue::Object(members), rx),
    decreases s,
{
    match s.kind {
        SchemaNodeKind::AnyOf(children) => {
            let i = choose|i: int| 0 <= i < children@.len() && absence_arm(#[trigger] children@[i], name);
            lemma_absence_arm_accepts(children@[i], name, members, rx);
            assert(accepts(children@[i], JsonValue::Object(members), rx));
        },
        SchemaNodeKind::Not(inner) => {
            lemma_presence_test_rejects(*inner, name, members, rx);
        },
        _ => {},
    }
}

/// A value arm accepts every object with unique member names that has
/// `name` with a value `p` accepts (`positive`), respectively rejects.
proof fn lemma_value_arm_accepts(s: SchemaNode, name: Seq<char>, positive: bool, p: SchemaNode, members: Vec<(String, JsonValue)>,
    k: int, rx: spec_fn(Seq<char>, Seq<char>) -> bool)
    requires
        value_arm(s, name, positive, p),
        0 <= k < members@.len(),
        members@[k].0@ == name,
        forall|i: int, j: int| 0 <= i < j < members@.len() ==> (#[trigger] members@[i]).0@ != (#[trigger] members@[j]).0@,
        accepts(p, members@[k].1, rx) == positive,
    ensures
        accepts(s, JsonValue::Object(members), rx),
    decreases s,
{
    match s.kind {
        SchemaNodeKind::AnyOf(children) => {
            let i = choose|i: int| 0 <= i < children@.len() && value_arm(#[trigger] children@[i], name, positive, p);
            lemma_value_arm_accepts(children@[i], name, positive, p, members, k, rx);
            assert(accepts(children@[i], JsonValue::Object(members), rx));
        },
        SchemaNodeKind::Object { properties, required, additional, property_names, .. } => {
            assert forall|i: int, j: int| 0 <= i < members@.len() && 0 <= j < properties@.len()
                && (#[trigger] members@[i]).0@ == (#[trigger] properties@[j]).0@
                implies accepts(properties@[j].1, members@[i].1, rx) by {
                assert(j == 0);
                if i != k {
                    if i < k {
                        assert(members@[i].0@ != members@[k].0@);
                    } else {
                        assert(members@[k].0@ != members@[i].0@);
                    }
                }
            }
            assert forall|i: int| 0 <= i < members@.len() implies accepts(*additional, (#[trigger] members@[i]).1, rx) by {
                lemma_trivially_universal_accepts(*additional, members@[i].1, rx);
            }
            assert forall|i: int| 0 <= i < members@.len() implies accepts(*property_names, JsonValue::String((#[trigger] members@[i]).0), rx) by {
                lemma_trivially_universal_accepts(*property_names, JsonValue::String(members@[i].0), rx);
            }
            assert forall|r: int| 0 <= r < required@.len() implies members_have_key(members@, (#[trigger] required@[r])@) by {
                assert(r == 0);
                assert(members@[k].0@ == required@[0]@);
            }
        },
        _ => {},
    }
}

/// Law: a union with every other type covered and a three-way split on one
/// name accepts every value with unique member names.
proof fn lemma_required_value_universal(branches: Seq<SchemaNode>, name: Seq<char>, p: SchemaNode, q: SchemaNode)
    requires
        other_types_covered(branches, JSON_TYPE_OBJECT),
        value_split(branches, name, p, q),
    ensures
        required_value_partition(branches),
        forall|v: JsonValue, rx: spec_fn(Seq<char>, Seq<char>) -> bool|
            json_wf(v) ==> #[trigger] union_accepts(branches, v, rx),
{
    {
        let a = choose|j: int| 0 <= j < branches.len() && #[trigger] absence_arm(branches[j], name);
        let b = choose|j: int| 0 <= j < branches.len() && #[trigger] value_arm(branches[j], name, true, p);
        let c = choose|j: int| 0 <= j < branches.len() && #[trigger] value_arm(branches[j], name, false, q);
        assert forall|v: JsonValue, rx: spec_fn(Seq<char>, Seq<char>) -> bool| json_wf(v) implies #[trigger] union_accepts(branches, v, rx) by {
            if json_type_bit(v) != JSON_TYPE_OBJECT {
                lemma_other_types_accepted(branches, JSON_TYPE_OBJECT, v, rx);
            } else {
                let members = v->Object_0;
                if members_have_key(members@, name) {
                    let k = choose|k: int| 0 <= k < members@.len() && (#[trigger] members@[k]).0@ == name;
                    lemma_obviously_equivalent_accepts(p, q, members@[k].1, rx);
                    if accepts(p, members@[k].1, rx) {
                        lemma_value_arm_accepts(branches[b], name, true, p, members, k, rx);
                    } else {
                        lemma_value_arm_accepts(branches[c], name, false, q, members, k, rx);
                    }
                } else {
                    lemma_absence_arm_accepts(branches[a], name, members, rx);
                }
            }
        }
    }
}

/// The name a plain presence object requires (see `plain_presence_name`).
fn plain_presence_object_name(schema: &SchemaNode) -> (r: Option<&String>)
    ensures
        match r {
            Some(name) => plain_presence_name(*schema) == Some(name@),
            None => plain_presence_name(*schema) is None,
        },
{
    match &schema.kind {
        SchemaNodeKind::Object { properties, pattern_properties, required, additional, property_names, property_count,
            dependent_required, enumeration } => {
            if required.len() != 1 || pattern_properties.len() != 0 || !schema_is_trivially_universal(additional)
                || !schema_is_trivially_universal(property_names) || property_count.min > 1 || property_count.max.is_some()
                || dependent_required.len() != 0 || enumeration.is_some() {
                return None;
            }
            let name = &required[0];
            if properties_only_name(properties, name.as_str(), true) {
                Some(name)
            } else {
                None
            }
        },
        _ => None,
    }
}

/// The name whose presence `schema` tests (see `presence_test_name`).
fn presence_test_name_of(schema: &SchemaNode) -> (r: Option<&String>)
    ensures
        match r {
            Some(name) => presence_test_name(*schema) == Some(name@),
            None => presence_test_name(*schema) is None,
        },
{
    match &schema.kind {
        SchemaNodeKind::Object { .. } => plain_presence_object_name(schema),
        SchemaNodeKind::AnyOf(children) => {
            let mut found: Option<&String> = None;
            let mut i: usize = 0;
            while i < children.len()
                invariant
                    i <= children@.len(),
                    schema.kind == SchemaNodeKind::AnyOf(*children),
                    found is None <==> forall|k: int| 0 <= k < i ==> !#[trigger] may_have_type(children@[k], JSON_TYPE_OBJECT),
                    found matches Some(x) ==> forall|k: int| 0 <= k < i && #[trigger] may_have_type(children@[k], JSON_TYPE_OBJECT)
                        ==> plain_presence_name(children@[k]) == Some(x@),
                decreases children@.len() - i,
            {
                let mask = possible_json_type_mask(&children[i]);
                proof {
                    crate::bits::lemma_single_bits(JSON_TYPE_OBJECT, JSON_TYPE_OBJECT);
                    assert(crate::bits::is_type_bit(JSON_TYPE_OBJECT));
                    assert((mask & JSON_TYPE_OBJECT != 0) == may_have_type(children@[i as int], JSON_TYPE_OBJECT));
                }
                if mask & JSON_TYPE_OBJECT != 0 {
                    match plain_presence_object_name(&children[i]) {
                        None => {
                            proof {
                                assert forall|n: Seq<char>| !#[trigger] union_presence(children@, n) by {
                                    if union_presence(children@, n) {
                                        assert(may_have_type(children@[i as int], JSON_TYPE_OBJECT));
                                    }
                                }
                            }
                            return None;
                        },
                        Some(n) => {
                            match found {
                                Some(old) => {
                                    if !str_eq(old.as_str(), n.as_str()) {
                                        proof {
                                            let k = choose|k: int| 0 <= k < i && #[trigger] may_have_type(children@[k], JSON_TYPE_OBJECT);
                                            assert forall|m: Seq<char>| !#[trigger] union_presence(children@, m) by {
                                                if union_presence(children@, m) {
                                                    assert(may_have_type(children@[i as int], JSON_TYPE_OBJECT));
                                                    assert(plain_presence_name(children@[k]) == Some(m));
                                                }
                                            }
                                        }
                                        return None;
                                    }
                                },
                                None => {
                                    found = Some(n);
                                },
                            }
                        },
                    }
                }
                i = i + 1;
            }
            proof {
                match found {
                    Some(x) => {
                        let k = choose|k: int| 0 <= k < i && #[trigger] may_have_type(children@[k], JSON_TYPE_OBJECT);
                        assert(union_presence(children@, x@));
                        let n = choose|n: Seq<char>| #[trigger] union_presence(children@, n);
                        assert(plain_presence_name(children@[k]) == Some(n));
                    },
                    None => {
                        assert forall|n: Seq<char>| !#[trigger] union_presence(children@, n) by {}
                    },
                }
            }
            found
        },
        _ => None,
    }
}

/// Appends the names of the absence arms `schema` reaches.
fn collect_absence_names(schema: &SchemaNode, out: &mut Vec<String>)
    ensures
        final(out)@.len() >= old(out)@.len(),
        forall|k: int| 0 <= k < old(out)@.len() ==> final(out)@[k] == old(out)@[k],
        forall|k: int| old(out)@.len() <= k < final(out)@.len() ==> absence_arm(*schema, (#[trigger] final(out)@[k])@),
        forall|name: Seq<char>| #[trigger] absence_arm(*schema, name) ==> name_listed(final(out)@, old(out)@.len() as int, name),
    decreases *schema,
{
    let ghost start = out@;
    match &schema.kind {
        SchemaNodeKind::AnyOf(children) => {
            let mut i: usize = 0;
            while i < children.len()
                invariant
                    i <= children@.len(),
                    schema.kind == SchemaNodeKind::AnyOf(*children),
                    out@.len() >= start.len(),
                    forall|k: int| 0 <= k < start.len() ==> out@[k] == start[k],
                    forall|k: int| start.len() <= k < out@.len() ==> absence_arm(*schema, (#[trigger] out@[k])@),
                    forall|j: int, name: Seq<char>| 0 <= j < i && #[trigger] absence_arm(children@[j], name)
                        ==> name_listed(out@, start.len() as int, name),
                decreases children@.len() - i,
            {
                proof {
                    assert(decreases_to!(*schema => schema.kind));
                    assert(decreases_to!(schema.kind => schema.kind->AnyOf_0));
                    assert(decreases_to!(*children => children[i as int]));
                }
                let ghost before = out@;
                collect_absence_names(&children[i], out);
                proof {
                    assert forall|k: int| start.len() <= k < out@.len() implies absence_arm(*schema, (#[trigger] out@[k])@) by {
                        if k < before.len() {
                            assert(out@[k] == before[k]);
                        } else {
                            assert(absence_arm(children@[i as int], out@[k]@));
                        }
                    }
                    assert forall|j: int, name: Seq<char>| 0 <= j < i + 1 && #[trigger] absence_arm(children@[j], name)
                        implies name_listed(out@, start.len() as int, name) by {
                        if j < i {
                            let k = choose|k: int| start.len() <= k < before.len() && (#[trigger] before[k])@ == name;
                            assert(out@[k] == before[k]);
                        } else {
                            let k = choose|k: int| before.len() <= k < out@.len() && (#[trigger] out@[k])@ == name;
                        }
                    }
                }
                i = i + 1;
            }
            proof {
                assert forall|name: Seq<char>| #[trigger] absence_arm(*schema, name) implies name_listed(out@, start.len() as int, name) by {
                    let j = choose|j: int| 0 <= j < schema.kind->AnyOf_0@.len() && absence_arm(#[trigger] schema.kind->AnyOf_0@[j], name);
                    assert(absence_arm(children@[j], name));
                }
            }
        },
        SchemaNodeKind::Not(inner) => {
            match presence_test_name_of(inner) {
                Some(name) => {
                    out.push(name.clone());
                    proof {
                        assert(out@[start.len() as int] == out@.last());
                    }
                },
                None => {},
            }
        },
        _ => {},
    }
}

/// Whether `out` holds, at or after `from`, the value arm `(name, positive, p)`.
pub open spec fn arm_listed(out: Seq<(String, bool, &SchemaNode)>, from: int, name: Seq<char>, positive: bool, p: SchemaNode) -> bool {
    exists|j: int| from <= j < out.len() && (#[trigger] out[j]).0@ == name && out[j].1 == positive && *out[j].2 == p
}

/// Appends the value arms `schema` reaches (see `value_arm`).
fn collect_value_arms<'a>(schema: &'a SchemaNode, out: &mut Vec<(String, bool, &'a SchemaNode)>)
    ensures
        final(out)@.len() >= old(out)@.len(),
        forall|k: int| 0 <= k < old(out)@.len() ==> final(out)@[k] == old(out)@[k],
        forall|k: int| old(out)@.len() <= k < final(out)@.len()
            ==> value_arm(*schema, (#[trigger] final(out)@[k]).0@, final(out)@[k].1, *final(out)@[k].2),
        forall|name: Seq<char>, positive: bool, p: SchemaNode| #[trigger] value_arm(*schema, name, positive, p)
            ==> arm_listed(final(out)@, old(out)@.len() as int, name, positive, p),
    decreases *schema,
{
    let ghost start = out@;
    match &schema.kind {
        SchemaNodeKind::AnyOf(children) => {
            let mut i: usize = 0;
            while i < children.len()
                invariant
                    i <= children@.len(),
                    schema.kind == SchemaNodeKind::AnyOf(*children),
                    out@.len() >= start.len(),
                    forall|k: int| 0 <= k < start.len() ==> out@[k] == start[k],
                    forall|k: int| start.len() <= k < out@.len() ==> value_arm(*schema, (#[trigger] out@[k]).0@, out@[k].1, *out@[k].2),
                    forall|j: int, name: Seq<char>, positive: bool, p: SchemaNode| 0 <= j < i
                        && #[trigger] value_arm(children@[j], name, positive, p) ==> arm_listed(out@, start.len() as int, name, positive, p),
                decreases children@.len() - i,
            {
                proof {
                    assert(decreases_to!(*schema => schema.kind));
                    assert(decreases_to!(schema.kind => schema.kind->AnyOf_0));
                    assert(decreases_to!(*children => children[i as int]));
                }
                let ghost before = out@;
                collect_value_arms(&children[i], out);
                proof {
                    assert forall|k: int| start.len() <= k < out@.len() implies value_arm(*schema, (#[trigger] out@[k]).0@, out@[k].1, *out@[k].2) by {
                        if k < before.len() {
                            assert(out@[k] == before[k]);
                        } else {
                            assert(value_arm(children@[i as int], out@[k].0@, out@[k].1, *out@[k].2));
                        }
                    }
                    assert forall|j: int, name: Seq<char>, positive: bool, p: SchemaNode| 0 <= j < i + 1
                        && #[trigger] value_arm(children@[j], name, positive, p) implies arm_listed(out@, start.len() as int, name, positive, p) by {
                        if j < i {
                            let k = choose|k: int| start.len() <= k < before.len() && (#[trigger] before[k]).0@ == name
                                && before[k].1 == positive && *before[k].2 == p;
                            assert(out@[k] == before[k]);
                        } else {
                            let k = choose|k: int| before.len() <= k < out@.len() && (#[trigger] out@[k]).0@ == name
                                && out@[k].1 == positive && *out@[k].2 == p;
                        }
                    }
                }
                i = i + 1;
            }
            proof {
                assert forall|name: Seq<char>, positive: bool, p: SchemaNode| #[trigger] value_arm(*schema, name, positive, p)
                    implies arm_listed(out@, start.len() as int, name, positive, p) by {
                    let j = choose|j: int| 0 <= j < schema.kind->AnyOf_0@.len() && value_arm(#[trigger] schema.kind->AnyOf_0@[j], name, positive, p);
                    assert(value_arm(children@[j], name, positive, p));
                }
            }
        },
        SchemaNodeKind::Object { properties, pattern_properties, required, additional, property_names, property_count,
            dependent_required, enumeration } => {
            if required.len() != 1 || properties.len() != 1 || pattern_properties.len() != 0
                || !schema_is_trivially_universal(additional) || !schema_is_trivially_universal(property_names)
                || property_count.min > 1 || property_count.max.is_some() || dependent_required.len() != 0
                || enumeration.is_some() {
                return;
            }
            let name = &required[0];
            if !str_eq(properties[0].0.as_str(), name.as_str()) {
                return;
            }
            let value_schema = &properties[0].1;
            match &value_schema.kind {
                SchemaNodeKind::Not(inner) => {
                    out.push((name.clone(), false, &**inner));
                },
                _ => {
                    out.push((name.clone(), true, value_schema));
                },
            }
            proof {
                assert(out@[start.len() as int] == out@.last());
            }
        },
        _ => {},
    }
}

/// Whether an `anyOf` of `branches` accepts every value: every type other
/// than object is accepted wholesale by some branch, and for one property
/// name `n` some branch is `not {required: [n]}` (objects without `n`),
/// another requires `n` with value `P`, a third with value `not Q`, `P` and
/// `Q` obviously equivalent. Then every object with unique member names
/// falls in one of them.
pub fn any_of_required_property_value_partition_is_universal(branches: &[SchemaNode]) -> (r: bool)
    ensures
        r == required_value_partition(branches@),
        r ==> forall|v: JsonValue, rx: spec_fn(Seq<char>, Seq<char>) -> bool|
            json_wf(v) ==> #[trigger] union_accepts(branches@, v, rx),
{
    if !other_types_covered_exec(branches, JSON_TYPE_OBJECT) {
        return false;
    }
    let mut absent: Vec<String> = Vec::new();
    let mut arms: Vec<(String, bool, &SchemaNode)> = Vec::new();
    let mut i: usize = 0;
    while i < branches.len()
        invariant
            i <= branches@.len(),
            forall|k: int| 0 <= k < absent@.len() ==> some_absence_arm(branches@, (#[trigger] absent@[k])@),
            forall|j: int, name: Seq<char>| 0 <= j < i && #[trigger] absence_arm(branches@[j], name)
                ==> name_listed(absent@, 0, name),
            forall|k: int| 0 <= k < arms@.len() ==> some_value_arm(branches@, (#[trigger] arms@[k]).0@, arms@[k].1, *arms@[k].2),
            forall|j: int, name: Seq<char>, positive: bool, p: SchemaNode| 0 <= j < i
                && #[trigger] value_arm(branches@[j], name, positive, p) ==> arm_listed(arms@, 0, name, positive, p),
        decreases branches@.len() - i,
    {
        let ghost absent_before = absent@;
        let ghost arms_before = arms@;
        collect_absence_names(&branches[i], &mut absent);
        collect_value_arms(&branches[i], &mut arms);
        proof {
            assert forall|k: int| 0 <= k < absent@.len() implies some_absence_arm(branches@, (#[trigger] absent@[k])@) by {
                if k < absent_before.len() {
                    assert(absent@[k] == absent_before[k]);
                } else {
                    assert(absence_arm(branches@[i as int], absent@[k]@));
                }
            }
            assert forall|j: int, name: Seq<char>| 0 <= j < i + 1 && #[trigger] absence_arm(branches@[j], name)
                implies name_listed(absent@, 0, name) by {
                if j < i {
                    let k = choose|k: int| 0 <= k < absent_before.len() && (#[trigger] absent_before[k])@ == name;
                    assert(absent@[k] == absent_before[k]);
                } else {
                    let k = choose|k: int| absent_before.len() <= k < absent@.len() && (#[trigger] absent@[k])@ == name;
                }
            }
            assert forall|k: int| 0 <= k < arms@.len() implies some_value_arm(branches@, (#[trigger] arms@[k]).0@, arms@[k].1, *arms@[k].2) by {
                if k < arms_before.len() {
                    assert(arms@[k] == arms_before[k]);
                } else {
                    assert(value_arm(branches@[i as int], arms@[k].0@, arms@[k].1, *arms@[k].2));
                }
            }
            assert forall|j: int, name: Seq<char>, positive: bool, p: SchemaNode| 0 <= j < i + 1
                && #[trigger] value_arm(branches@[j], name, positive, p) implies arm_listed(arms@, 0, name, positive, p) by {
                if j < i {
                    let k = choose|k: int| 0 <= k < arms_before.len() && (#[trigger] arms_before[k]).0@ == name
                        && arms_before[k].1 == positive && *arms_before[k].2 == p;
                    assert(arms@[k] == arms_before[k]);
                } else {
                    let k = choose|k: int| arms_before.len() <= k < arms@.len() && (#[trigger] arms@[k]).0@ == name
                        && arms@[k].1 == positive && *arms@[k].2 == p;
                }
            }
        }
        i = i + 1;
    }
    let mut n: usize = 0;
    while n < absent.len()
        invariant
            n <= absent@.len(),
            other_types_covered(branches@, JSON_TYPE_OBJECT),
            forall|k: int| 0 <= k < absent@.len() ==> some_absence_arm(branches@, (#[trigger] absent@[k])@),
            forall|k: int| 0 <= k < arms@.len() ==> some_value_arm(branches@, (#[trigger] arms@[k]).0@, arms@[k].1, *arms@[k].2),
            forall|x: int, a: int, b: int| 0 <= x < n && 0 <= a < arms@.len() && 0 <= b < arms@.len() ==> !(
                (#[trigger] arms@[a]).0@ == (#[trigger] absent@[x])@ && arms@[a].1 && (#[trigger] arms@[b]).0@ == absent@[x]@
                && !arms@[b].1 && obviously_equivalent(*arms@[a].2, *arms@[b].2)),
        decreases absent@.len() - n,
    {
        let name = absent[n].as_str();
        let mut a: usize = 0;
        while a < arms.len()
            invariant
                n < absent@.len(),
                a <= arms@.len(),
                name@ == absent@[n as int]@,
                other_types_covered(branches@, JSON_TYPE_OBJECT),
                forall|k: int| 0 <= k < absent@.len() ==> some_absence_arm(branches@, (#[trigger] absent@[k])@),
                forall|k: int| 0 <= k < arms@.len() ==> some_value_arm(branches@, (#[trigger] arms@[k]).0@, arms@[k].1, *arms@[k].2),
                forall|x: int, c: int, b: int| 0 <= x < n && 0 <= c < arms@.len() && 0 <= b < arms@.len() ==> !(
                    (#[trigger] arms@[c]).0@ == (#[trigger] absent@[x])@ && arms@[c].1 && (#[trigger] arms@[b]).0@ == absent@[x]@
                    && !arms@[b].1 && obviously_equivalent(*arms@[c].2, *arms@[b].2)),
                forall|c: int, b: int| 0 <= c < a && 0 <= b < arms@.len() ==> !(
                    (#[trigger] arms@[c]).0@ == name@ && arms@[c].1 && (#[trigger] arms@[b]).0@ == name@
                    && !arms@[b].1 && obviously_equivalent(*arms@[c].2, *arms@[b].2)),
            decreases arms@.len() - a,
        {
            let mut b: usize = 0;
            while b < arms.len()
                invariant
                    n < absent@.len(),
                    a < arms@.len(),
                    b <= arms@.len(),
                    name@ == absent@[n as int]@,
                    other_types_covered(branches@, JSON_TYPE_OBJECT),
                    forall|k: int| 0 <= k < absent@.len() ==> some_absence_arm(branches@, (#[trigger] absent@[k])@),
                    forall|k: int| 0 <= k < arms@.len() ==> some_value_arm(branches@, (#[trigger] arms@[k]).0@, arms@[k].1, *arms@[k].2),
                    forall|x: int, c: int, e: int| 0 <= x < n && 0 <= c < arms@.len() && 0 <= e < arms@.len() ==> !(
                        (#[trigger] arms@[c]).0@ == (#[trigger] absent@[x])@ && arms@[c].1 && (#[trigger] arms@[e]).0@ == absent@[x]@
                        && !arms@[e].1 && obviously_equivalent(*arms@[c].2, *arms@[e].2)),
                    forall|c: int, e: int| 0 <= c < a && 0 <= e < arms@.len() ==> !(
                        (#[trigger] arms@[c]).0@ == name@ && arms@[c].1 && (#[trigger] arms@[e]).0@ == name@
                        && !arms@[e].1 && obviously_equivalent(*arms@[c].2, *arms@[e].2)),
                    forall|e: int| 0 <= e < b ==> !(
                        arms@[a as int].0@ == name@ && arms@[a as int].1 && (#[trigger] arms@[e]).0@ == name@
                        && !arms@[e].1 && obviously_equivalent(*arms@[a as int].2, *arms@[e].2)),
                decreases arms@.len() - b,
            {
                if arms[a].1 && !arms[b].1 && str_eq(arms[a].0.as_str(), name) && str_eq(arms[b].0.as_str(), name)
                    && schemas_obviously_equivalent(arms[a].2, arms[b].2) {
                    proof {
                        assert(some_absence_arm(branches@, absent@[n as int]@));
                        assert(some_value_arm(branches@, arms@[a as int].0@, arms@[a as int].1, *arms@[a as int].2));
                        assert(some_value_arm(branches@, arms@[b as int].0@, arms@[b as int].1, *arms@[b as int].2));
                        assert(value_split(branches@, name@, *arms@[a as int].2, *arms@[b as int].2));
                        lemma_required_value_universal(branches@, name@, *arms@[a as int].2, *arms@[b as int].2);
                    }
                    return true;
                }
                b = b + 1;
            }
            a = a + 1;
        }
        n = n + 1;
    }
    proof {
        assert forall|name: Seq<char>, p: SchemaNode, q: SchemaNode| !#[trigger] value_split(branches@, name, p, q) by {
            if value_split(branches@, name, p, q) {
                let ja = choose|j: int| 0 <= j < branches@.len() && #[trigger] absence_arm(branches@[j], name);
                let jp = choose|j: int| 0 <= j < branches@.len() && #[trigger] value_arm(branches@[j], name, true, p);
                let jq = choose|j: int| 0 <= j < branches@.len() && #[trigger] value_arm(branches@[j], name, false, q);
                assert(name_listed(absent@, 0, name));
                assert(arm_listed(arms@, 0, name, true, p));
                assert(arm_listed(arms@, 0, name, false, q));
                let x = choose|k: int| 0 <= k < absent@.len() && (#[trigger] absent@[k])@ == name;
                let a = choose|k: int| 0 <= k < arms@.len() && (#[trigger] arms@[k]).0@ == name && arms@[k].1 == true && *arms@[k].2 == p;
                let b = choose|k: int| 0 <= k < arms@.len() && (#[trigger] arms@[k]).0@ == name && arms@[k].1 == false && *arms@[k].2 == q;
                assert(!((arms@[a]).0@ == (absent@[x])@ && arms@[a].1 && (arms@[b]).0@ == absent@[x]@
                    && !arms@[b].1 && obviously_equivalent(*arms@[a].2, *arms@[b].2)));
            }
        }
    }
    false
}

} // verus!
