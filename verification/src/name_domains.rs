//! Finite string domains: a finite set holding every string a schema may
//! accept, when the schema's shape makes one obvious; used as the possible
//! member names under a `propertyNames` schema.

use vstd::prelude::*;
use crate::json::{JsonValue, JSON_TYPE_STRING};
use crate::schema::{SchemaNode, SchemaNodeKind};
use crate::semantics::accepts;
use crate::names::{name_set, distinct_names, insert_name, lemma_distinct_name_set_len};
use crate::types::{may_have_type, obviously_accepts_type, possible_json_type_mask, whole_json_types_accepted_mask};
use crate::membership::{acceptance_deviation, schema_may_under_accept_values};
use crate::literals::{is_string, lists_string};
use crate::emptiness::evaluator_callable;

verus! {

/// Whether the evaluator's answers on strings are those of `evs`.
pub open spec fn string_answers<G: Fn(&SchemaNode, &JsonValue) -> bool>(evaluator: G, evs: spec_fn(SchemaNode, Seq<char>) -> bool) -> bool {
    forall|s: &SchemaNode, v: &JsonValue, r: bool| #[trigger] evaluator.ensures((s, v), r)
        ==> (v is String ==> r == evs(*s, v->String_0@))
}

/// The strings listed in `values`.
pub open spec fn strings_of(values: Seq<JsonValue>) -> Set<Seq<char>> {
    Set::new(|n: Seq<char>| lists_string(values, n))
}

/// The names of `d` that `evs` accepts for `s`, unless the evaluator may
/// under-accept on `s`.
pub open spec fn evaluator_filter(s: SchemaNode, d: Set<Seq<char>>, evs: spec_fn(SchemaNode, Seq<char>) -> bool) -> Set<Seq<char>> {
    if acceptance_deviation(s).may_under_accept {
        d
    } else {
        d.filter(|n: Seq<char>| evs(s, n))
    }
}

/// A finite set of strings holding every string `s` may accept, filtered
/// by the evaluator (see `raw_name_domain`); `None` when none is obvious.
pub open spec fn name_domain(s: SchemaNode, evs: spec_fn(SchemaNode, Seq<char>) -> bool) -> Option<Set<Seq<char>>>
    decreases s, 2nat,
{
    match raw_name_domain(s, evs) {
        None => None,
        Some(d) => Some(evaluator_filter(s, d, evs)),
    }
}

/// The unfiltered string domain of `s`:
/// - empty for `false` and for schemas that may accept no string;
/// - the string of a `const`, the strings of an `enum` or of a string
///   enumeration, the empty string under `maxLength: 0`;
/// - for `allOf`, the smallest known conjunct domain, less the names some
///   conjunct's evaluator run rejects where it cannot under-accept;
/// - for `anyOf`/`oneOf`, the union of the branch domains;
/// - for `if`, the branch the condition selects for every string, the union
///   of both branches, or with one branch missing the union of the present
///   branch with the condition (or the negated condition's operand).
pub open spec fn raw_name_domain(s: SchemaNode, evs: spec_fn(SchemaNode, Seq<char>) -> bool) -> Option<Set<Seq<char>>>
    decreases s, 1nat,
{
    if s.kind == SchemaNodeKind::BoolSchema(false) || !may_have_type(s, JSON_TYPE_STRING) {
        Some(Set::empty())
    } else {
        match s.kind {
            SchemaNodeKind::Const(v) => Some(match v {
                JsonValue::String(t) => Set::empty().insert(t@),
                _ => Set::empty(),
            }),
            SchemaNodeKind::Enum(values) => Some(strings_of(values@)),
            SchemaNodeKind::String { length, enumeration, .. } => match enumeration {
                Some(values) => Some(strings_of(values@)),
                None => if length.max == Some(0u64) {
                    Some(Set::empty().insert(Seq::empty()))
                } else {
                    None
                },
            },
            SchemaNodeKind::AllOf(children) => match smallest_domain(children@, children@.len(), evs) {
                None => None,
                Some(d) => Some(d.filter(|n: Seq<char>| conjuncts_admit(children@, n, evs))),
            },
            SchemaNodeKind::AnyOf(children) => union_domain(children@, children@.len(), evs),
            SchemaNodeKind::OneOf(children) => union_domain(children@, children@.len(), evs),
            SchemaNodeKind::IfThenElse { if_schema, then_schema, else_schema } => {
                if obviously_accepts_type(*if_schema, JSON_TYPE_STRING) {
                    match then_schema {
                        Some(t) => name_domain(*t, evs),
                        None => None,
                    }
                } else if !may_have_type(*if_schema, JSON_TYPE_STRING) {
                    match else_schema {
                        Some(e) => name_domain(*e, evs),
                        None => None,
                    }
                } else {
                    match (then_schema, else_schema) {
                        (Some(t), Some(e)) => union_of(name_domain(*t, evs), name_domain(*e, evs)),
                        (None, Some(e)) => union_of(name_domain(*e, evs), name_domain(*if_schema, evs)),
                        (Some(t), None) => match if_schema.kind {
                            SchemaNodeKind::Not(negated) => union_of(name_domain(*t, evs), name_domain(*negated, evs)),
                            _ => None,
                        },
                        (None, None) => None,
                    }
                }
            },
            _ => None,
        }
    }
}

/// The union of two known domains.
pub open spec fn union_of(a: Option<Set<Seq<char>>>, b: Option<Set<Seq<char>>>) -> Option<Set<Seq<char>>> {
    match (a, b) {
        (Some(x), Some(y)) => Some(x.union(y)),
        _ => None,
    }
}

/// The smallest known domain among the first `n` conjuncts (the first of
/// the smallest), `None` when none is known.
pub open spec fn smallest_domain(children: Seq<SchemaNode>, n: nat, evs: spec_fn(SchemaNode, Seq<char>) -> bool) -> Option<Set<Seq<char>>>
    decreases children, n,
{
    if n == 0 || n > children.len() {
        None
    } else {
        let prev = smallest_domain(children, (n - 1) as nat, evs);
        match name_domain(children[n - 1], evs) {
            None => prev,
            Some(d) => match prev {
                None => Some(d),
                Some(b) => if d.len() < b.len() { Some(d) } else { Some(b) },
            },
        }
    }
}

/// The union of the first `n` branch domains, `None` when one is unknown.
pub open spec fn union_domain(children: Seq<SchemaNode>, n: nat, evs: spec_fn(SchemaNode, Seq<char>) -> bool) -> Option<Set<Seq<char>>>
    decreases children, n,
{
    if n == 0 || n > children.len() {
        Some(Set::empty())
    } else {
        union_of(union_domain(children, (n - 1) as nat, evs), name_domain(children[n - 1], evs))
    }
}

/// Whether an executable domain matches a spec one, without repeats.
pub open spec fn domain_matches(r: Option<Vec<String>>, d: Option<Set<Seq<char>>>) -> bool {
    match (r, d) {
        (None, None) => true,
        (Some(v), Some(e)) => name_set(v@) == e && distinct_names(v@),
        _ => false,
    }
}

/// The distinct strings listed in `values`.
fn strings_of_values(values: &Vec<JsonValue>) -> (r: Vec<String>)
    ensures
        distinct_names(r@),
        name_set(r@) == strings_of(values@),
{
    let mut out: Vec<String> = Vec::new();
    let mut i: usize = 0;
    while i < values.len()
        invariant
            i <= values@.len(),
            distinct_names(out@),
            name_set(out@) == Set::new(|n: Seq<char>| exists|k: int| 0 <= k < i && is_string(#[trigger] values@[k], n)),
        decreases values@.len() - i,
    {
        match values[i].as_str() {
            Some(text) => {
                insert_name(&mut out, text);
            },
            None => {},
        }
        assert(name_set(out@) =~= Set::new(|n: Seq<char>| exists|k: int| 0 <= k < i + 1 && is_string(#[trigger] values@[k], n)));
        i = i + 1;
    }
    assert(name_set(out@) =~= strings_of(values@));
    out
}

/// Adds the names of `src` to `out`.
fn merge_names(out: &mut Vec<String>, src: &Vec<String>)
    requires
        distinct_names(old(out)@),
    ensures
        distinct_names(final(out)@),
        name_set(final(out)@) == name_set(old(out)@).union(name_set(src@)),
{
    let ghost start = out@;
    let mut i: usize = 0;
    while i < src.len()
        invariant
            i <= src@.len(),
            distinct_names(out@),
            name_set(out@) == name_set(start).union(name_set(src@.take(i as int))),
        decreases src@.len() - i,
    {
        proof { crate::names::lemma_name_set_take(src@, i as int); }
        insert_name(out, src[i].as_str());
        assert(name_set(out@) =~= name_set(start).union(name_set(src@.take(i + 1))));
        i = i + 1;
    }
    proof {
        if src@.len() > 0 {
            crate::names::lemma_name_set_take(src@, 0);
        } else {
            assert(src@.take(0) =~= src@);
        }
    }
}

/// The names of `names` the evaluator accepts as strings for `schema`.
fn keep_accepted<G: Fn(&SchemaNode, &JsonValue) -> bool>(schema: &SchemaNode, names: &Vec<String>, evaluator: &G) -> (r: Vec<String>)
    requires
        evaluator_callable(*evaluator),
        distinct_names(names@),
    ensures
        distinct_names(r@),
        forall|evs: spec_fn(SchemaNode, Seq<char>) -> bool| #[trigger] string_answers(*evaluator, evs)
            ==> name_set(r@) == name_set(names@).filter(|n: Seq<char>| evs(*schema, n)),
{
    let mut out: Vec<String> = Vec::new();
    let mut i: usize = 0;
    while i < names.len()
        invariant
            i <= names@.len(),
            evaluator_callable(*evaluator),
            distinct_names(names@),
            distinct_names(out@),
            forall|k: int| 0 <= k < out@.len() ==> exists|j: int| 0 <= j < i && (#[trigger] names@[j])@ == (#[trigger] out@[k])@,
            forall|evs: spec_fn(SchemaNode, Seq<char>) -> bool| #[trigger] string_answers(*evaluator, evs)
                ==> name_set(out@) == name_set(names@.take(i as int)).filter(|n: Seq<char>| evs(*schema, n)),
        decreases names@.len() - i,
    {
        let candidate = JsonValue::String(names[i].clone());
        let accepted = evaluator(schema, &candidate);
        let ghost before = out@;
        proof { crate::names::lemma_name_set_take(names@, i as int); }
        if accepted {
            out.push(names[i].clone());
            proof {
                crate::names::lemma_name_set_push(before, names@[i as int]);
                assert forall|a: int, b: int| 0 <= a < b < out@.len() implies (#[trigger] out@[a])@ != (#[trigger] out@[b])@ by {
                    if b == out@.len() - 1 {
                        let j = choose|j: int| 0 <= j < i && (#[trigger] names@[j])@ == before[a]@;
                        assert(out@[a] == before[a]);
                    } else {
                        assert(out@[a] == before[a] && out@[b] == before[b]);
                    }
                }
                assert forall|k: int| 0 <= k < out@.len() implies exists|j: int| 0 <= j < i + 1 && (#[trigger] names@[j])@ == (#[trigger] out@[k])@ by {
                    if k < before.len() {
                        assert(out@[k] == before[k]);
                        let j = choose|j: int| 0 <= j < i && (#[trigger] names@[j])@ == before[k]@;
                        assert(names@[j]@ == out@[k]@);
                    } else {
                        assert(names@[i as int]@ == out@[k]@);
                    }
                }
            }
        } else {
            proof {
                assert forall|k: int| 0 <= k < out@.len() implies exists|j: int| 0 <= j < i + 1 && (#[trigger] names@[j])@ == (#[trigger] out@[k])@ by {
                    let j = choose|j: int| 0 <= j < i && (#[trigger] names@[j])@ == out@[k]@;
                    assert(names@[j]@ == out@[k]@);
                }
            }
        }
        proof {
            assert forall|evs: spec_fn(SchemaNode, Seq<char>) -> bool| #[trigger] string_answers(*evaluator, evs)
                implies name_set(out@) == name_set(names@.take(i + 1)).filter(|n: Seq<char>| evs(*schema, n)) by {
                assert((*evaluator).ensures((schema, &candidate), accepted));
                assert(accepted == evs(*schema, names@[i as int]@));
                assert(name_set(out@) =~= name_set(names@.take(i + 1)).filter(|n: Seq<char>| evs(*schema, n)));
            }
        }
        i = i + 1;
    }
    proof {
        if names@.len() > 0 {
            crate::names::lemma_name_set_take(names@, 0);
        } else {
            assert(names@.take(0) =~= names@);
        }
    }
    out
}

/// Whether every conjunct accepts the string `name` by the evaluator, or
/// may make the evaluator under-accept.
pub open spec fn conjuncts_admit(children: Seq<SchemaNode>, n: Seq<char>, evs: spec_fn(SchemaNode, Seq<char>) -> bool) -> bool {
    forall|i: int| 0 <= i < children.len() ==> acceptance_deviation(#[trigger] children[i]).may_under_accept || evs(children[i], n)
}

/// Whether every conjunct admits `name` (see `conjuncts_admit`).
fn conjuncts_admit_name<G: Fn(&SchemaNode, &JsonValue) -> bool>(children: &Vec<SchemaNode>, name: &String, evaluator: &G) -> (r: bool)
    requires
        evaluator_callable(*evaluator),
    ensures
        forall|evs: spec_fn(SchemaNode, Seq<char>) -> bool| #[trigger] string_answers(*evaluator, evs)
            ==> r == conjuncts_admit(children@, name@, evs),
{
    let candidate = JsonValue::String(name.clone());
    let mut i: usize = 0;
    while i < children.len()
        invariant
            i <= children@.len(),
            evaluator_callable(*evaluator),
            candidate == JsonValue::String(candidate->String_0),
            candidate->String_0@ == name@,
            forall|evs: spec_fn(SchemaNode, Seq<char>) -> bool, k: int| #[trigger] string_answers(*evaluator, evs) && 0 <= k < i
                ==> acceptance_deviation(#[trigger] children@[k]).may_under_accept || evs(children@[k], name@),
        decreases children@.len() - i,
    {
        let under = schema_may_under_accept_values(&children[i]);
        if !under {
            let accepted = evaluator(&children[i], &candidate);
            if !accepted {
                proof {
                    assert forall|evs: spec_fn(SchemaNode, Seq<char>) -> bool| #[trigger] string_answers(*evaluator, evs)
                        implies !conjuncts_admit(children@, name@, evs) by {
                        assert((*evaluator).ensures((&children[i as int], &candidate), accepted));
                        assert(!(acceptance_deviation(children@[i as int]).may_under_accept || evs(children@[i as int], name@)));
                    }
                }
                return false;
            }
            proof {
                assert forall|evs: spec_fn(SchemaNode, Seq<char>) -> bool| #[trigger] string_answers(*evaluator, evs)
                    implies evs(children@[i as int], name@) by {
                    assert((*evaluator).ensures((&children[i as int], &candidate), accepted));
                }
            }
        }
        i = i + 1;
    }
    true
}

/// The names of `names` every conjunct admits.
fn keep_admitted<G: Fn(&SchemaNode, &JsonValue) -> bool>(children: &Vec<SchemaNode>, names: &Vec<String>, evaluator: &G) -> (r: Vec<String>)
    requires
        evaluator_callable(*evaluator),
        distinct_names(names@),
    ensures
        distinct_names(r@),
        forall|evs: spec_fn(SchemaNode, Seq<char>) -> bool| #[trigger] string_answers(*evaluator, evs)
            ==> name_set(r@) == name_set(names@).filter(|n: Seq<char>| conjuncts_admit(children@, n, evs)),
{
    let mut out: Vec<String> = Vec::new();
    let mut i: usize = 0;
    while i < names.len()
        invariant
            i <= names@.len(),
            evaluator_callable(*evaluator),
            distinct_names(names@),
            distinct_names(out@),
            forall|k: int| 0 <= k < out@.len() ==> exists|j: int| 0 <= j < i && (#[trigger] names@[j])@ == (#[trigger] out@[k])@,
            forall|evs: spec_fn(SchemaNode, Seq<char>) -> bool| #[trigger] string_answers(*evaluator, evs)
                ==> name_set(out@) == name_set(names@.take(i as int)).filter(|n: Seq<char>| conjuncts_admit(children@, n, evs)),
        decreases names@.len() - i,
    {
        let admitted = conjuncts_admit_name(children, &names[i], evaluator);
        let ghost before = out@;
        proof { crate::names::lemma_name_set_take(names@, i as int); }
        if admitted {
            out.push(names[i].clone());
            proof {
                crate::names::lemma_name_set_push(before, names@[i as int]);
                assert forall|a: int, b: int| 0 <= a < b < out@.len() implies (#[trigger] out@[a])@ != (#[trigger] out@[b])@ by {
                    if b == out@.len() - 1 {
                        let j = choose|j: int| 0 <= j < i && (#[trigger] names@[j])@ == before[a]@;
                        assert(out@[a] == before[a]);
                    } else {
                        assert(out@[a] == before[a] && out@[b] == before[b]);
                    }
                }
                assert forall|k: int| 0 <= k < out@.len() implies exists|j: int| 0 <= j < i + 1 && (#[trigger] names@[j])@ == (#[trigger] out@[k])@ by {
                    if k < before.len() {
                        assert(out@[k] == before[k]);
                        let j = choose|j: int| 0 <= j < i && (#[trigger] names@[j])@ == before[k]@;
                        assert(names@[j]@ == out@[k]@);
                    } else {
                        assert(names@[i as int]@ == out@[k]@);
                    }
                }
            }
        } else {
            proof {
                assert forall|k: int| 0 <= k < out@.len() implies exists|j: int| 0 <= j < i + 1 && (#[trigger] names@[j])@ == (#[trigger] out@[k])@ by {
                    let j = choose|j: int| 0 <= j < i && (#[trigger] names@[j])@ == out@[k]@;
                    assert(names@[j]@ == out@[k]@);
                }
            }
        }
        proof {
            assert forall|evs: spec_fn(SchemaNode, Seq<char>) -> bool| #[trigger] string_answers(*evaluator, evs)
                implies name_set(out@) == name_set(names@.take(i + 1)).filter(|n: Seq<char>| conjuncts_admit(children@, n, evs)) by {
                assert(name_set(out@) =~= name_set(names@.take(i + 1)).filter(|n: Seq<char>| conjuncts_admit(children@, n, evs)));
            }
        }
        i = i + 1;
    }
    proof {
        if names@.len() > 0 {
            crate::names::lemma_name_set_take(names@, 0);
        } else {
            assert(names@.take(0) =~= names@);
        }
    }
    out
}

/// A list holding one string.
fn single_name(name: String) -> (r: Vec<String>)
    ensures
        distinct_names(r@),
        name_set(r@) == Set::empty().insert(name@),
{
    let mut out: Vec<String> = Vec::new();
    let ghost before = out@;
    out.push(name);
    proof {
        crate::names::lemma_name_set_push(before, name);
        assert(name_set(before) =~= Set::empty());
    }
    out
}

/// A finite list holding every string `schema` may accept, without
/// repeats, when one is obvious (see `name_domain`); `evaluator(schema,
/// value)` says whether a schema accepts a value.
pub fn finite_property_name_strings_superset<G: Fn(&SchemaNode, &JsonValue) -> bool>(schema: &SchemaNode, evaluator: &G)
    -> (r: Option<Vec<String>>)
    requires
        evaluator_callable(*evaluator),
    ensures
        r matches Some(v) ==> distinct_names(v@),
        forall|evs: spec_fn(SchemaNode, Seq<char>) -> bool| #[trigger] string_answers(*evaluator, evs)
            ==> domain_matches(r, name_domain(*schema, evs)),
    decreases *schema, 2nat,
{
    match raw_domain(schema, evaluator) {
        None => None,
        Some(values) => {
            if schema_may_under_accept_values(schema) {
                Some(values)
            } else {
                let kept = keep_accepted(schema, &values, evaluator);
                Some(kept)
            }
        },
    }
}

/// The unfiltered domain of `schema` (see `raw_name_domain`).
fn raw_domain<G: Fn(&SchemaNode, &JsonValue) -> bool>(schema: &SchemaNode, evaluator: &G) -> (r: Option<Vec<String>>)
    requires
        evaluator_callable(*evaluator),
    ensures
        r matches Some(v) ==> distinct_names(v@),
        forall|evs: spec_fn(SchemaNode, Seq<char>) -> bool| #[trigger] string_answers(*evaluator, evs)
            ==> domain_matches(r, raw_name_domain(*schema, evs)),
    decreases *schema, 1nat,
{
    let is_false = match &schema.kind {
        SchemaNodeKind::BoolSchema(b) => !*b,
        _ => false,
    };
    let possible = possible_json_type_mask(schema);
    proof { crate::bits::lemma_single_bits(JSON_TYPE_STRING, JSON_TYPE_STRING); }
    if is_false || possible & JSON_TYPE_STRING == 0 {
        let empty: Vec<String> = Vec::new();
        assert(name_set(empty@) =~= Set::empty());
        return Some(empty);
    }
    match &schema.kind {
        SchemaNodeKind::Const(value) => match value.as_str() {
            Some(text) => Some(single_name(text.to_owned())),
            None => {
                let empty: Vec<String> = Vec::new();
                assert(name_set(empty@) =~= Set::empty());
                Some(empty)
            },
        },
        SchemaNodeKind::Enum(values) => Some(strings_of_values(values)),
        SchemaNodeKind::String { length, enumeration, .. } => match enumeration {
            Some(values) => Some(strings_of_values(values)),
            None => match length.max {
                Some(mx) => if mx == 0 {
                    Some(single_name(String::new()))
                } else {
                    None
                },
                None => None,
            },
        },
        SchemaNodeKind::AllOf(children) => {
            let mut best: Option<Vec<String>> = None;
            let mut i: usize = 0;
            while i < children.len()
                invariant
                    i <= children@.len(),
                    evaluator_callable(*evaluator),
                    schema.kind == SchemaNodeKind::AllOf(*children),
                    best matches Some(v) ==> distinct_names(v@),
                    forall|evs: spec_fn(SchemaNode, Seq<char>) -> bool| #[trigger] string_answers(*evaluator, evs)
                        ==> domain_matches(best, smallest_domain(children@, i as nat, evs)),
                decreases children@.len() - i,
            {
                proof {
                    assert(decreases_to!(*schema => schema.kind));
                    assert(decreases_to!(schema.kind => schema.kind->AllOf_0));
                    assert(decreases_to!(*children => children[i as int]));
                }
                let child = finite_property_name_strings_superset(&children[i], evaluator);
                match child {
                    Some(values) => {
                        let smaller = match &best {
                            None => true,
                            Some(current) => values.len() < current.len(),
                        };
                        proof {
                            assert forall|evs: spec_fn(SchemaNode, Seq<char>) -> bool| #[trigger] string_answers(*evaluator, evs)
                                implies domain_matches(if smaller { Some(values) } else { best }, smallest_domain(children@, (i + 1) as nat, evs)) by {
                                lemma_distinct_name_set_len(values@);
                                match best {
                                    Some(current) => { lemma_distinct_name_set_len(current@); },
                                    None => {},
                                }
                            }
                        }
                        if smaller {
                            best = Some(values);
                        }
                    },
                    None => {},
                }
                i = i + 1;
            }
            match best {
                None => None,
                Some(values) => Some(keep_admitted(children, &values, evaluator)),
            }
        },
        SchemaNodeKind::AnyOf(children) => union_of_branches(schema, children, evaluator),
        SchemaNodeKind::OneOf(children) => union_of_branches(schema, children, evaluator),
        SchemaNodeKind::IfThenElse { if_schema, then_schema, else_schema } => {
            proof {
                assert(decreases_to!(*schema => schema.kind));
            }
            let whole = whole_json_types_accepted_mask(if_schema);
            if whole & JSON_TYPE_STRING != 0 {
                return match then_schema {
                    Some(t) => finite_property_name_strings_superset(t, evaluator),
                    None => None,
                };
            }
            if possible_json_type_mask(if_schema) & JSON_TYPE_STRING == 0 {
                return match else_schema {
                    Some(e) => finite_property_name_strings_superset(e, evaluator),
                    None => None,
                };
            }
            match (then_schema, else_schema) {
                (Some(t), Some(e)) => merged(finite_property_name_strings_superset(t, evaluator),
                    finite_property_name_strings_superset(e, evaluator)),
                (None, Some(e)) => {
                    let else_values = finite_property_name_strings_superset(e, evaluator);
                    if else_values.is_none() {
                        return None;
                    }
                    merged(else_values, finite_property_name_strings_superset(if_schema, evaluator))
                },
                (Some(t), None) => match &if_schema.kind {
                    SchemaNodeKind::Not(negated) => {
                        proof {
                            assert(decreases_to!(**if_schema => if_schema.kind));
                            assert(decreases_to!(if_schema.kind => if_schema.kind->Not_0));
                        }
                        let then_values = finite_property_name_strings_superset(t, evaluator);
                        if then_values.is_none() {
                            return None;
                        }
                        merged(then_values, finite_property_name_strings_superset(negated, evaluator))
                    },
                    _ => None,
                },
                (None, None) => None,
            }
        },
        _ => None,
    }
}

/// The union of two known domains.
fn merged(a: Option<Vec<String>>, b: Option<Vec<String>>) -> (r: Option<Vec<String>>)
    requires
        a matches Some(x) ==> distinct_names(x@),
    ensures
        match (a, b) {
            (Some(x), Some(y)) => r matches Some(z) && distinct_names(z@) && name_set(z@) == name_set(x@).union(name_set(y@)),
            _ => r is None,
        },
{
    match (a, b) {
        (Some(x), Some(y)) => {
            let mut z = x;
            merge_names(&mut z, &y);
            Some(z)
        },
        _ => None,
    }
}

/// The union of the branch domains of the union `schema`.
fn union_of_branches<G: Fn(&SchemaNode, &JsonValue) -> bool>(schema: &SchemaNode, children: &Vec<SchemaNode>, evaluator: &G)
    -> (r: Option<Vec<String>>)
    requires
        evaluator_callable(*evaluator),
        schema.kind == SchemaNodeKind::AnyOf(*children) || schema.kind == SchemaNodeKind::OneOf(*children),
    ensures
        r matches Some(v) ==> distinct_names(v@),
        forall|evs: spec_fn(SchemaNode, Seq<char>) -> bool| #[trigger] string_answers(*evaluator, evs)
            ==> domain_matches(r, union_domain(children@, children@.len(), evs)),
    decreases *schema, 0nat,
{
    let mut union: Vec<String> = Vec::new();
    assert(name_set(union@) =~= Set::empty());
    let mut i: usize = 0;
    while i < children.len()
        invariant
            i <= children@.len(),
            evaluator_callable(*evaluator),
            schema.kind == SchemaNodeKind::AnyOf(*children) || schema.kind == SchemaNodeKind::OneOf(*children),
            distinct_names(union@),
            forall|evs: spec_fn(SchemaNode, Seq<char>) -> bool| #[trigger] string_answers(*evaluator, evs)
                ==> union_domain(children@, i as nat, evs) == Some(name_set(union@)),
        decreases children@.len() - i,
    {
        proof {
            assert(decreases_to!(*schema => schema.kind));
            if schema.kind == SchemaNodeKind::AnyOf(*children) {
                assert(decreases_to!(schema.kind => schema.kind->AnyOf_0));
            } else {
                assert(decreases_to!(schema.kind => schema.kind->OneOf_0));
            }
            assert(decreases_to!(*children => children[i as int]));
        }
        match finite_property_name_strings_superset(&children[i], evaluator) {
            Some(values) => {
                merge_names(&mut union, &values);
            },
            None => {
                proof {
                    assert forall|evs: spec_fn(SchemaNode, Seq<char>) -> bool| #[trigger] string_answers(*evaluator, evs)
                        implies union_domain(children@, children@.len(), evs) is None by {
                        lemma_union_domain_unknown(children@, (i + 1) as nat, children@.len(), evs);
                    }
                }
                return None;
            },
        }
        i = i + 1;
    }
    Some(union)
}

/// Once a branch domain is unknown, the union stays unknown.
proof fn lemma_union_domain_unknown(children: Seq<SchemaNode>, n: nat, m: nat, evs: spec_fn(SchemaNode, Seq<char>) -> bool)
    requires
        0 < n <= m <= children.len(),
        union_domain(children, n, evs) is None,
    ensures
        union_domain(children, m, evs) is None,
    decreases m - n,
{
    if n < m {
        lemma_union_domain_unknown(children, n, (m - 1) as nat, evs);
    }
}

/// Whether `evs` accepts every string a schema accepts under `rx`, wherever
/// the schema cannot make an evaluator under-accept.
pub open spec fn string_answers_sound(evs: spec_fn(SchemaNode, Seq<char>) -> bool, rx: spec_fn(Seq<char>, Seq<char>) -> bool) -> bool {
    forall|s: SchemaNode, t: String| !acceptance_deviation(s).may_under_accept && #[trigger] accepts(s, JsonValue::String(t), rx)
        ==> evs(s, t@)
}

/// The smallest known conjunct domain is the domain of one of them.
proof fn lemma_smallest_domain_member(children: Seq<SchemaNode>, n: nat, evs: spec_fn(SchemaNode, Seq<char>) -> bool)
    requires
        smallest_domain(children, n, evs) is Some,
    ensures
        exists|i: int| 0 <= i < n && i < children.len() && name_domain(#[trigger] children[i], evs) == smallest_domain(children, n, evs),
    decreases n,
{
    if n > 0 && n <= children.len() {
        let prev = smallest_domain(children, (n - 1) as nat, evs);
        if prev is Some {
            lemma_smallest_domain_member(children, (n - 1) as nat, evs);
        }
        if name_domain(children[n - 1], evs) is Some {
            assert(name_domain(children[n - 1], evs) == name_domain(children[(n - 1) as int], evs));
        }
    }
}

/// A known union of branch domains holds each branch's known domain.
proof fn lemma_union_domain_members(children: Seq<SchemaNode>, n: nat, evs: spec_fn(SchemaNode, Seq<char>) -> bool)
    requires
        n <= children.len(),
        union_domain(children, n, evs) is Some,
    ensures
        forall|i: int| 0 <= i < n ==> (#[trigger] name_domain(children[i], evs)) is Some
            && name_domain(children[i], evs)->0.subset_of(union_domain(children, n, evs)->0),
    decreases n,
{
    if n > 0 {
        lemma_union_domain_members(children, (n - 1) as nat, evs);
    }
}

/// Law: every string a schema accepts lies in its known string domain, for
/// every regex semantics and every evaluator sound for it.
pub proof fn lemma_name_domain_sound(s: SchemaNode, t: String, evs: spec_fn(SchemaNode, Seq<char>) -> bool,
    rx: spec_fn(Seq<char>, Seq<char>) -> bool)
    requires
        string_answers_sound(evs, rx),
        name_domain(s, evs) is Some,
        accepts(s, JsonValue::String(t), rx),
    ensures
        name_domain(s, evs)->0.contains(t@),
    decreases s, 2nat,
{
    lemma_raw_name_domain_sound(s, t, evs, rx);
    if !acceptance_deviation(s).may_under_accept {
        assert(evs(s, t@));
    }
}

/// The unfiltered domain holds every accepted string.
proof fn lemma_raw_name_domain_sound(s: SchemaNode, t: String, evs: spec_fn(SchemaNode, Seq<char>) -> bool,
    rx: spec_fn(Seq<char>, Seq<char>) -> bool)
    requires
        string_answers_sound(evs, rx),
        raw_name_domain(s, evs) is Some,
        accepts(s, JsonValue::String(t), rx),
    ensures
        raw_name_domain(s, evs)->0.contains(t@),
    decreases s, 1nat,
{
    let v = JsonValue::String(t);
    crate::types::lemma_type_facts_sound(s, v, rx);
    if s.kind == SchemaNodeKind::BoolSchema(false) || !may_have_type(s, JSON_TYPE_STRING) {
        return;
    }
    match s.kind {
        SchemaNodeKind::Const(c) => {
            assert(crate::json::json_eq(v, c));
        },
        SchemaNodeKind::Enum(values) => {
            let i = choose|i: int| 0 <= i < values@.len() && crate::json::json_eq(v, #[trigger] values@[i]);
            assert(is_string(values@[i], t@));
        },
        SchemaNodeKind::String { length, enumeration, .. } => match enumeration {
            Some(values) => {
                let i = choose|i: int| 0 <= i < values@.len() && crate::json::json_eq(v, #[trigger] values@[i]);
                assert(is_string(values@[i], t@));
            },
            None => {
                assert(t@ =~= Seq::<char>::empty());
            },
        },
        SchemaNodeKind::AllOf(children) => {
            lemma_smallest_domain_member(children@, children@.len(), evs);
            let i = choose|i: int| 0 <= i < children@.len() && i < children@.len()
                && name_domain(#[trigger] children@[i], evs) == smallest_domain(children@, children@.len(), evs);
            lemma_name_domain_sound(children@[i], t, evs, rx);
            assert forall|k: int| 0 <= k < children@.len() implies acceptance_deviation(#[trigger] children@[k]).may_under_accept
                || evs(children@[k], t@) by {
                assert(accepts(children@[k], v, rx));
            }
        },
        SchemaNodeKind::AnyOf(children) => {
            lemma_union_domain_members(children@, children@.len(), evs);
            let i = choose|i: int| 0 <= i < children@.len() && accepts(#[trigger] children@[i], v, rx);
            assert(name_domain(children@[i], evs) is Some);
            lemma_name_domain_sound(children@[i], t, evs, rx);
        },
        SchemaNodeKind::OneOf(children) => {
            lemma_union_domain_members(children@, children@.len(), evs);
            let i = choose|i: int| 0 <= i < children@.len() && accepts(#[trigger] children@[i], v, rx)
                && forall|j: int| 0 <= j < children@.len() && j != i ==> !accepts(#[trigger] children@[j], v, rx);
            assert(name_domain(children@[i], evs) is Some);
            lemma_name_domain_sound(children@[i], t, evs, rx);
        },
        SchemaNodeKind::IfThenElse { if_schema, then_schema, else_schema } => {
            crate::types::lemma_type_facts_sound(*if_schema, v, rx);
            if obviously_accepts_type(*if_schema, JSON_TYPE_STRING) {
                lemma_name_domain_sound(*then_schema->0, t, evs, rx);
            } else if !may_have_type(*if_schema, JSON_TYPE_STRING) {
                lemma_name_domain_sound(*else_schema->0, t, evs, rx);
            } else {
                match (then_schema, else_schema) {
                    (Some(a), Some(b)) => {
                        if accepts(*if_schema, v, rx) {
                            lemma_name_domain_sound(*a, t, evs, rx);
                        } else {
                            lemma_name_domain_sound(*b, t, evs, rx);
                        }
                    },
                    (None, Some(b)) => {
                        if accepts(*if_schema, v, rx) {
                            lemma_name_domain_sound(*if_schema, t, evs, rx);
                        } else {
                            lemma_name_domain_sound(*b, t, evs, rx);
                        }
                    },
                    (Some(a), None) => match if_schema.kind {
                        SchemaNodeKind::Not(negated) => {
                            if accepts(*if_schema, v, rx) {
                                lemma_name_domain_sound(*a, t, evs, rx);
                            } else {
                                lemma_name_domain_sound(*negated, t, evs, rx);
                            }
                        },
                        _ => {},
                    },
                    (None, None) => {},
                }
            }
        },
        _ => {},
    }
}

/// Whether `schema` may accept the string `name`: the evaluator accepts it,
/// or the evaluator's rejections on `schema` may be wrong.
pub fn property_name_schema_may_accept<G: Fn(&SchemaNode, &JsonValue) -> bool>(schema: &SchemaNode, name: &str, evaluator: &G)
    -> (r: bool)
    requires
        evaluator_callable(*evaluator),
    ensures
        forall|evs: spec_fn(SchemaNode, Seq<char>) -> bool| #[trigger] string_answers(*evaluator, evs)
            ==> r == (evs(*schema, name@) || acceptance_deviation(*schema).may_under_accept),
{
    let candidate = JsonValue::String(name.to_owned());
    let accepted = evaluator(schema, &candidate);
    proof {
        assert forall|evs: spec_fn(SchemaNode, Seq<char>) -> bool| #[trigger] string_answers(*evaluator, evs)
            implies accepted == evs(*schema, name@) by {
            assert((*evaluator).ensures((schema, &candidate), accepted));
        }
    }
    accepted || schema_may_under_accept_values(schema)
}

/// Law: a schema that accepts the string `name` under `rx` may accept it by
/// this test, for every evaluator sound for `rx`.
pub proof fn lemma_property_name_may_accept_sound(s: SchemaNode, t: String, evs: spec_fn(SchemaNode, Seq<char>) -> bool,
    rx: spec_fn(Seq<char>, Seq<char>) -> bool)
    requires
        string_answers_sound(evs, rx),
        accepts(s, JsonValue::String(t), rx),
    ensures
        evs(s, t@) || acceptance_deviation(s).may_under_accept,
{
}

} // verus!
