//! Required-versus-forbidden conflicts: two schemas are disjoint when one
//! guarantees a member name that the other forbids.

use vstd::prelude::*;
use crate::json::{JsonValue, members_have_key, JSON_TYPE_OBJECT};
use crate::schema::{SchemaNode, SchemaNodeKind};
use crate::semantics::accepts;
use crate::bits::is_type_bit;
use crate::names::{name_set, names_contain, member_names, lemma_name_set_push, lemma_name_set_take};
use crate::types::{may_have_type, obviously_accepts_type, possible_json_type_mask, whole_json_types_accepted_mask,
    lemma_type_facts_sound, possible_mask_holds};
use crate::properties::{all_objects, common_names, guaranteed_names, guaranteed_property_name_closure, enum_common_names,
    schema_guarantees_name, guarantees_name_for_objects, schema_guarantees_property_name,
    schema_guarantees_property_name_for_objects, lemma_guaranteed_name_member};
use crate::literals::{matcher_agrees, matcher_callable, answers_follow};
use crate::emptiness::{evaluator_agrees, evaluator_callable, evaluator_sound};
use crate::forbidden::{forbids, forbids_in_objects, oracles_agree, schema_forbids_property_name,
    schema_forbids_property_name_for_objects, lemma_forbids_sound, lemma_forbids_in_objects_sound};

verus! {

/// Whether `n` is a candidate name of `s`: a `required` name, a member of a
/// `const` object, a name common to an enumeration of objects; any
/// conjunct's candidates for `allOf`, the common candidates of a non-empty
/// `anyOf`/`oneOf` or of both branches of an `if`, and a single branch's
/// when the condition decides every object towards it.
pub open spec fn candidate_name(s: SchemaNode, n: Seq<char>) -> bool
    decreases s,
{
    match s.kind {
        SchemaNodeKind::Object { required, .. } => name_set(required@).contains(n),
        SchemaNodeKind::Const(v) => match v {
            JsonValue::Object(members) => members_have_key(members@, n),
            _ => false,
        },
        SchemaNodeKind::Enum(values) => values@.len() > 0 && all_objects(values@) && common_names(values@).contains(n),
        SchemaNodeKind::AllOf(children) => exists|i: int| 0 <= i < children@.len() && candidate_name(#[trigger] children@[i], n),
        SchemaNodeKind::AnyOf(children) => children@.len() > 0
            && forall|i: int| 0 <= i < children@.len() ==> candidate_name(#[trigger] children@[i], n),
        SchemaNodeKind::OneOf(children) => children@.len() > 0
            && forall|i: int| 0 <= i < children@.len() ==> candidate_name(#[trigger] children@[i], n),
        SchemaNodeKind::IfThenElse { if_schema, then_schema, else_schema } => match (then_schema, else_schema) {
            (Some(t), Some(e)) => candidate_name(*t, n) && candidate_name(*e, n),
            (Some(t), None) => obviously_accepts_type(*if_schema, JSON_TYPE_OBJECT) && candidate_name(*t, n),
            (None, Some(e)) => !may_have_type(*if_schema, JSON_TYPE_OBJECT) && candidate_name(*e, n),
            (None, None) => false,
        },
        _ => false,
    }
}

/// The candidate names of `s` (see `candidate_name`).
pub open spec fn candidates(s: SchemaNode) -> Set<Seq<char>> {
    Set::new(|n: Seq<char>| candidate_name(s, n))
}

/// The names of `a` kept only where `b` holds them too.
fn retain_names(a: &Vec<String>, b: &Vec<String>) -> (r: Vec<String>)
    ensures
        name_set(r@) == name_set(a@).intersect(name_set(b@)),
{
    let mut kept: Vec<String> = Vec::new();
    let mut i: usize = 0;
    while i < a.len()
        invariant
            i <= a@.len(),
            name_set(kept@) == name_set(a@.take(i as int)).intersect(name_set(b@)),
        decreases a@.len() - i,
    {
        let ghost before = kept@;
        proof { lemma_name_set_take(a@, i as int); }
        if names_contain(b, a[i].as_str()) {
            kept.push(a[i].clone());
            proof { lemma_name_set_push(before, a@[i as int]); }
        }
        assert(name_set(kept@) =~= name_set(a@.take(i + 1)).intersect(name_set(b@)));
        i = i + 1;
    }
    proof {
        if a@.len() > 0 {
            lemma_name_set_take(a@, 0);
        } else {
            assert(a@.take(0) =~= a@);
        }
    }
    kept
}

/// Appends the names of `b` to `a`.
fn append_names(a: &mut Vec<String>, b: &Vec<String>)
    ensures
        name_set(final(a)@) == name_set(old(a)@).union(name_set(b@)),
{
    let ghost start = a@;
    let mut i: usize = 0;
    while i < b.len()
        invariant
            i <= b@.len(),
            name_set(a@) == name_set(start).union(name_set(b@.take(i as int))),
        decreases b@.len() - i,
    {
        let ghost before = a@;
        proof { lemma_name_set_take(b@, i as int); }
        a.push(b[i].clone());
        proof { lemma_name_set_push(before, b@[i as int]); }
        assert(name_set(a@) =~= name_set(start).union(name_set(b@.take(i + 1))));
        i = i + 1;
    }
    proof {
        if b@.len() > 0 {
            lemma_name_set_take(b@, 0);
        } else {
            assert(b@.take(0) =~= b@);
        }
    }
}

/// The candidate names of `schema` (see `candidate_name`).
pub fn candidate_property_names(schema: &SchemaNode) -> (r: Vec<String>)
    ensures
        name_set(r@) == candidates(*schema),
    decreases *schema, 1nat,
{
    let mut out: Vec<String> = Vec::new();
    match &schema.kind {
        SchemaNodeKind::Object { required, .. } => {
            append_names(&mut out, required);
        },
        SchemaNodeKind::Const(value) => match value.as_object() {
            Some(members) => {
                let mut i: usize = 0;
                while i < members.len()
                    invariant
                        i <= members@.len(),
                        name_set(out@) == Set::new(|n: Seq<char>| exists|k: int| 0 <= k < i && (#[trigger] members@[k]).0@ == n),
                    decreases members@.len() - i,
                {
                    let ghost before = out@;
                    out.push(members[i].0.clone());
                    proof { lemma_name_set_push(before, members@[i as int].0); }
                    assert(name_set(out@) =~= Set::new(|n: Seq<char>| exists|k: int| 0 <= k < i + 1 && (#[trigger] members@[k]).0@ == n));
                    i = i + 1;
                }
            },
            None => {},
        },
        SchemaNodeKind::Enum(values) => {
            out = enum_common_names(values);
        },
        SchemaNodeKind::AllOf(children) => {
            let mut i: usize = 0;
            while i < children.len()
                invariant
                    i <= children@.len(),
                    schema.kind == SchemaNodeKind::AllOf(*children),
                    name_set(out@) == Set::new(|n: Seq<char>| exists|k: int| 0 <= k < i && candidate_name(#[trigger] children@[k], n)),
                decreases children@.len() - i,
            {
                proof {
                    assert(decreases_to!(*schema => schema.kind));
                    assert(decreases_to!(schema.kind => schema.kind->AllOf_0));
                    assert(decreases_to!(*children => children[i as int]));
                }
                let child = candidate_property_names(&children[i]);
                append_names(&mut out, &child);
                assert(name_set(out@) =~= Set::new(|n: Seq<char>| exists|k: int| 0 <= k < i + 1 && candidate_name(#[trigger] children@[k], n)));
                i = i + 1;
            }
        },
        SchemaNodeKind::AnyOf(children) => {
            out = common_candidates(schema, children);
        },
        SchemaNodeKind::OneOf(children) => {
            out = common_candidates(schema, children);
        },
        SchemaNodeKind::IfThenElse { if_schema, then_schema, else_schema } => match (then_schema, else_schema) {
            (Some(then_schema), Some(else_schema)) => {
                let a = candidate_property_names(then_schema);
                let b = candidate_property_names(else_schema);
                out = retain_names(&a, &b);
            },
            (Some(then_schema), None) => {
                let whole = whole_json_types_accepted_mask(if_schema);
                proof { crate::bits::lemma_single_bits(JSON_TYPE_OBJECT, JSON_TYPE_OBJECT); }
                if whole & JSON_TYPE_OBJECT != 0 {
                    out = candidate_property_names(then_schema);
                }
            },
            (None, Some(else_schema)) => {
                let possible = possible_json_type_mask(if_schema);
                proof { crate::bits::lemma_single_bits(JSON_TYPE_OBJECT, JSON_TYPE_OBJECT); }
                if possible & JSON_TYPE_OBJECT == 0 {
                    out = candidate_property_names(else_schema);
                }
            },
            (None, None) => {},
        },
        _ => {},
    }
    assert(name_set(out@) =~= candidates(*schema));
    out
}

/// The candidates every branch of the non-empty union `schema` shares.
fn common_candidates(schema: &SchemaNode, children: &Vec<SchemaNode>) -> (r: Vec<String>)
    requires
        schema.kind == SchemaNodeKind::AnyOf(*children) || schema.kind == SchemaNodeKind::OneOf(*children),
    ensures
        name_set(r@) == Set::new(|n: Seq<char>| children@.len() > 0
            && forall|k: int| 0 <= k < children@.len() ==> candidate_name(#[trigger] children@[k], n)),
    decreases *schema, 0nat,
{
    if children.len() == 0 {
        let empty: Vec<String> = Vec::new();
        assert(name_set(empty@) =~= Set::new(|n: Seq<char>| children@.len() > 0
            && forall|k: int| 0 <= k < children@.len() ==> candidate_name(#[trigger] children@[k], n)));
        return empty;
    }
    proof {
        assert(decreases_to!(*schema => schema.kind));
        if schema.kind == SchemaNodeKind::AnyOf(*children) {
            assert(decreases_to!(schema.kind => schema.kind->AnyOf_0));
        } else {
            assert(decreases_to!(schema.kind => schema.kind->OneOf_0));
        }
        assert(decreases_to!(*children => children[0]));
    }
    let mut common = candidate_property_names(&children[0]);
    assert(name_set(common@) =~= Set::new(|n: Seq<char>| forall|k: int| 0 <= k < 1 ==> candidate_name(#[trigger] children@[k], n)));
    let mut i: usize = 1;
    while i < children.len()
        invariant
            1 <= i <= children@.len(),
            schema.kind == SchemaNodeKind::AnyOf(*children) || schema.kind == SchemaNodeKind::OneOf(*children),
            name_set(common@) == Set::new(|n: Seq<char>| forall|k: int| 0 <= k < i ==> candidate_name(#[trigger] children@[k], n)),
        decreases children@.len() - i,
    {
        proof {
            assert(decreases_to!(*schema => schema.kind));
            if schema.kind == SchemaNodeKind::AnyOf(*children) {
                assert(decreases_to!(schema.kind => schema.kind->AnyOf_0));
            } else {
                assert(decreases_to!(schema.kind => schema.kind->OneOf_0));
            }
            assert(decreases_to!(*children => children[i as int]));
        }
        let child = candidate_property_names(&children[i]);
        common = retain_names(&common, &child);
        proof {
            assert forall|n: Seq<char>| name_set(common@).contains(n)
                <==> (forall|k: int| 0 <= k < i + 1 ==> candidate_name(#[trigger] children@[k], n)) by {
                if forall|k: int| 0 <= k < i + 1 ==> candidate_name(#[trigger] children@[k], n) {
                    assert(forall|k: int| 0 <= k < i ==> candidate_name(#[trigger] children@[k], n));
                    assert(candidate_name(children@[i as int], n));
                }
            }
            assert(name_set(common@) =~= Set::new(|n: Seq<char>| forall|k: int| 0 <= k < i + 1 ==> candidate_name(#[trigger] children@[k], n)));
        }
        i = i + 1;
    }
    assert(name_set(common@) =~= Set::new(|n: Seq<char>| children@.len() > 0
        && forall|k: int| 0 <= k < children@.len() ==> candidate_name(#[trigger] children@[k], n)));
    common
}

/// Whether every JSON type both schemas may accept is `object`.
pub open spec fn object_only_overlap(left: SchemaNode, right: SchemaNode) -> bool {
    forall|t: u8| is_type_bit(t) && t != JSON_TYPE_OBJECT ==> !(#[trigger] may_have_type(left, t) && may_have_type(right, t))
}

/// Whether `s` guarantees member `n`, object-scoped when `objects_only`.
pub open spec fn guarantees_with(s: SchemaNode, n: Seq<char>, objects_only: bool) -> bool {
    schema_guarantees_name(s, n) || (objects_only && guarantees_name_for_objects(s, n))
}

/// Whether `s` forbids member `n`, object-scoped when `objects_only`.
pub open spec fn forbids_with(s: SchemaNode, n: Seq<char>, objects_only: bool, m: spec_fn(Seq<char>, Seq<char>) -> Option<bool>,
    ev: spec_fn(SchemaNode, JsonValue) -> bool) -> bool {
    forbids(s, n, m, ev) || (objects_only && forbids_in_objects(s, n, m, ev))
}

/// Whether some name `a` is known to carry, or puts forward as a candidate,
/// is guaranteed by `a` and forbidden by `b`.
pub open spec fn one_way_conflict(a: SchemaNode, b: SchemaNode, objects_only: bool, m: spec_fn(Seq<char>, Seq<char>) -> Option<bool>,
    ev: spec_fn(SchemaNode, JsonValue) -> bool) -> bool {
    exists|n: Seq<char>| (guaranteed_names(a).contains(n) || candidate_name(a, n))
        && #[trigger] guarantees_with(a, n, objects_only) && forbids_with(b, n, objects_only, m, ev)
}

/// What `required_vs_forbidden_property_are_disjoint` decides: a name one
/// schema guarantees is forbidden by the other, either way round, with the
/// object-scoped tests used when objects are the only shared type.
pub open spec fn required_forbidden_conflict(left: SchemaNode, right: SchemaNode, m: spec_fn(Seq<char>, Seq<char>) -> Option<bool>,
    ev: spec_fn(SchemaNode, JsonValue) -> bool) -> bool {
    let objects_only = object_only_overlap(left, right);
    one_way_conflict(left, right, objects_only, m, ev) || one_way_conflict(right, left, objects_only, m, ev)
}

/// Whether a name `a` guarantees is forbidden by `b` (see `one_way_conflict`).
fn one_way<F: Fn(&str, &str) -> Option<bool>, G: Fn(&SchemaNode, &JsonValue) -> bool>(
    a: &SchemaNode, b: &SchemaNode, objects_only: bool, matcher: &F, evaluator: &G) -> (r: bool)
    requires
        matcher_callable(*matcher),
        evaluator_callable(*evaluator),
    ensures
        forall|m: spec_fn(Seq<char>, Seq<char>) -> Option<bool>, ev: spec_fn(SchemaNode, JsonValue) -> bool|
            #[trigger] oracles_agree(*matcher, *evaluator, m, ev) ==> r == one_way_conflict(*a, *b, objects_only, m, ev),
{
    let mut names = guaranteed_property_name_closure(a);
    let extra = candidate_property_names(a);
    append_names(&mut names, &extra);
    let mut i: usize = 0;
    while i < names.len()
        invariant
            i <= names@.len(),
            matcher_callable(*matcher),
            evaluator_callable(*evaluator),
            name_set(names@) == guaranteed_names(*a).union(candidates(*a)),
            forall|m: spec_fn(Seq<char>, Seq<char>) -> Option<bool>, ev: spec_fn(SchemaNode, JsonValue) -> bool, j: int|
                oracles_agree(*matcher, *evaluator, m, ev) && 0 <= j < i
                ==> !(guarantees_with(*a, names@[j]@, objects_only) && #[trigger] forbids_with(*b, names@[j]@, objects_only, m, ev)),
        decreases names@.len() - i,
    {
        let name = names[i].as_str();
        let guaranteed = schema_guarantees_property_name(a, name)
            || (objects_only && schema_guarantees_property_name_for_objects(a, name));
        let forbidden = if guaranteed {
            if objects_only {
                schema_forbids_property_name_for_objects(b, name, matcher, evaluator)
            } else {
                schema_forbids_property_name(b, name, matcher, evaluator)
            }
        } else {
            false
        };
        proof {
            assert(guaranteed == guarantees_with(*a, names@[i as int]@, objects_only));
            assert forall|m: spec_fn(Seq<char>, Seq<char>) -> Option<bool>, ev: spec_fn(SchemaNode, JsonValue) -> bool|
                #[trigger] oracles_agree(*matcher, *evaluator, m, ev)
                implies (guaranteed && forbidden) == (guarantees_with(*a, names@[i as int]@, objects_only)
                    && forbids_with(*b, names@[i as int]@, objects_only, m, ev)) by {
            }
        }
        if guaranteed && forbidden {
            proof {
                assert forall|m: spec_fn(Seq<char>, Seq<char>) -> Option<bool>, ev: spec_fn(SchemaNode, JsonValue) -> bool|
                    #[trigger] oracles_agree(*matcher, *evaluator, m, ev) implies one_way_conflict(*a, *b, objects_only, m, ev) by {
                    let n = names@[i as int]@;
                    assert(name_set(names@).contains(n));
                    assert(guaranteed_names(*a).contains(n) || candidates(*a).contains(n));
                    assert(guarantees_with(*a, n, objects_only));
                }
            }
            return true;
        }
        i = i + 1;
    }
    proof {
        assert forall|m: spec_fn(Seq<char>, Seq<char>) -> Option<bool>, ev: spec_fn(SchemaNode, JsonValue) -> bool|
            #[trigger] oracles_agree(*matcher, *evaluator, m, ev) implies !one_way_conflict(*a, *b, objects_only, m, ev) by {
            if one_way_conflict(*a, *b, objects_only, m, ev) {
                let n = choose|n: Seq<char>| (guaranteed_names(*a).contains(n) || candidate_name(*a, n))
                    && #[trigger] guarantees_with(*a, n, objects_only) && forbids_with(*b, n, objects_only, m, ev);
                assert(name_set(names@).contains(n)) by {
                    if !guaranteed_names(*a).contains(n) {
                        assert(candidates(*a).contains(n));
                    }
                }
                let j = choose|j: int| 0 <= j < names@.len() && (#[trigger] names@[j])@ == n;
                assert(!(guarantees_with(*a, names@[j]@, objects_only) && forbids_with(*b, names@[j]@, objects_only, m, ev)));
            }
        }
    }
    false
}

/// The shared-type test on two possible-type masks.
proof fn lemma_object_only_masks(lm: u8, rm: u8, left: SchemaNode, right: SchemaNode)
    requires
        possible_mask_holds(lm, left),
        possible_mask_holds(rm, right),
    ensures
        (lm & rm & !JSON_TYPE_OBJECT == 0) == object_only_overlap(left, right),
{
    assert((lm & rm & !32u8 == 0) == ((lm & 1 == 0 || rm & 1 == 0) && (lm & 2 == 0 || rm & 2 == 0)
        && (lm & 4 == 0 || rm & 4 == 0) && (lm & 8 == 0 || rm & 8 == 0) && (lm & 16 == 0 || rm & 16 == 0))) by (bit_vector)
        requires
            lm & 192u8 == 0,
            rm & 192u8 == 0;
    assert(is_type_bit(1) && is_type_bit(2) && is_type_bit(4) && is_type_bit(8) && is_type_bit(16));
    assert(may_have_type(left, 1) == (lm & 1 != 0));
    assert(may_have_type(left, 2) == (lm & 2 != 0));
    assert(may_have_type(left, 4) == (lm & 4 != 0));
    assert(may_have_type(left, 8) == (lm & 8 != 0));
    assert(may_have_type(left, 16) == (lm & 16 != 0));
    assert(may_have_type(right, 1) == (rm & 1 != 0));
    assert(may_have_type(right, 2) == (rm & 2 != 0));
    assert(may_have_type(right, 4) == (rm & 4 != 0));
    assert(may_have_type(right, 8) == (rm & 8 != 0));
    assert(may_have_type(right, 16) == (rm & 16 != 0));
}

/// Whether one schema guarantees a member name the other forbids (see
/// `required_forbidden_conflict`); `matcher` answers supported patterns and
/// `evaluator` says whether a schema accepts a value.
pub fn required_vs_forbidden_property_are_disjoint<F: Fn(&str, &str) -> Option<bool>, G: Fn(&SchemaNode, &JsonValue) -> bool>(
    left: &SchemaNode, right: &SchemaNode, matcher: &F, evaluator: &G) -> (r: bool)
    requires
        matcher_callable(*matcher),
        evaluator_callable(*evaluator),
    ensures
        forall|m: spec_fn(Seq<char>, Seq<char>) -> Option<bool>, ev: spec_fn(SchemaNode, JsonValue) -> bool|
            #[trigger] oracles_agree(*matcher, *evaluator, m, ev) ==> r == required_forbidden_conflict(*left, *right, m, ev),
{
    let lm = possible_json_type_mask(left);
    let rm = possible_json_type_mask(right);
    let objects_only = lm & rm & !JSON_TYPE_OBJECT == 0;
    proof { lemma_object_only_masks(lm, rm, *left, *right); }
    one_way(left, right, objects_only, matcher, evaluator) || one_way(right, left, objects_only, matcher, evaluator)
}

/// A one-way conflict leaves no value both schemas accept.
proof fn lemma_one_way_conflict_disjoint(a: SchemaNode, b: SchemaNode, objects_only: bool, v: JsonValue,
    m: spec_fn(Seq<char>, Seq<char>) -> Option<bool>, ev: spec_fn(SchemaNode, JsonValue) -> bool,
    rx: spec_fn(Seq<char>, Seq<char>) -> bool)
    requires
        answers_follow(m, rx),
        evaluator_sound(ev, rx),
        one_way_conflict(a, b, objects_only, m, ev),
        objects_only ==> v is Object,
        accepts(a, v, rx),
    ensures
        !accepts(b, v, rx),
{
    let n = choose|n: Seq<char>| (guaranteed_names(a).contains(n) || candidate_name(a, n))
        && #[trigger] guarantees_with(a, n, objects_only) && forbids_with(b, n, objects_only, m, ev);
    lemma_guaranteed_name_member(a, n, v, rx);
    let members = v->Object_0;
    if forbids(b, n, m, ev) {
        lemma_forbids_sound(b, members, n, m, ev, rx);
    } else {
        lemma_forbids_in_objects_sound(b, members, n, m, ev, rx);
    }
}

/// Law: two schemas in a required-versus-forbidden conflict accept no
/// common value, under every regex semantics and evaluator the oracles'
/// answers are sound for.
pub proof fn lemma_required_forbidden_conflict_disjoint(left: SchemaNode, right: SchemaNode, v: JsonValue,
    m: spec_fn(Seq<char>, Seq<char>) -> Option<bool>, ev: spec_fn(SchemaNode, JsonValue) -> bool,
    rx: spec_fn(Seq<char>, Seq<char>) -> bool)
    requires
        answers_follow(m, rx),
        evaluator_sound(ev, rx),
        required_forbidden_conflict(left, right, m, ev),
    ensures
        !(accepts(left, v, rx) && accepts(right, v, rx)),
{
    if accepts(left, v, rx) && accepts(right, v, rx) {
        let objects_only = object_only_overlap(left, right);
        lemma_type_facts_sound(left, v, rx);
        lemma_type_facts_sound(right, v, rx);
        let t = crate::json::json_type_bit(v);
        assert(is_type_bit(t));
        if objects_only {
            assert(t == JSON_TYPE_OBJECT);
        }
        if one_way_conflict(left, right, objects_only, m, ev) {
            lemma_one_way_conflict_disjoint(left, right, objects_only, v, m, ev, rx);
        } else {
            lemma_one_way_conflict_disjoint(right, left, objects_only, v, m, ev, rx);
        }
    }
}

/// Law: the required-versus-forbidden conflict is symmetric in its two
/// schemas.
pub proof fn lemma_required_forbidden_conflict_symmetric(left: SchemaNode, right: SchemaNode,
    m: spec_fn(Seq<char>, Seq<char>) -> Option<bool>, ev: spec_fn(SchemaNode, JsonValue) -> bool)
    ensures
        required_forbidden_conflict(left, right, m, ev) == required_forbidden_conflict(right, left, m, ev),
{
    assert(object_only_overlap(left, right) == object_only_overlap(right, left)) by {
        if object_only_overlap(left, right) {
            assert forall|t: u8| is_type_bit(t) && t != JSON_TYPE_OBJECT
                implies !(#[trigger] may_have_type(right, t) && may_have_type(left, t)) by {
                assert(!(may_have_type(left, t) && may_have_type(right, t)));
            }
        }
        if object_only_overlap(right, left) {
            assert forall|t: u8| is_type_bit(t) && t != JSON_TYPE_OBJECT
                implies !(#[trigger] may_have_type(left, t) && may_have_type(right, t)) by {
                assert(!(may_have_type(right, t) && may_have_type(left, t)));
            }
        }
    }
}

} // verus!
