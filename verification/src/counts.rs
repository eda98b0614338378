//! Object member counts: an interval holding the number of members of every
//! object a schema accepts, read off the schema's shape.
//!
//! Forbidden names and the `propertyNames` domain consult a pattern matcher
//! and a schema evaluator given as arguments (see `forbidden` and
//! `name_domains`).

use vstd::prelude::*;
use crate::json::{JsonValue, JSON_TYPE_OBJECT};
use crate::schema::{SchemaNode, SchemaNodeKind};
use crate::intervals::{LengthInterval, empty_interval, unbounded_interval, interval_intersection, interval_hull};
use crate::lengths::union_bound;
use crate::names::{name_set, distinct_names, lemma_distinct_name_set_len, member_names};
use crate::json::json_wf;
use crate::semantics::{accepts, declared_name, pattern_named};
use crate::intervals::{length_in, length_interval_wf, strictly_before, length_interval_strictly_before, interval_contains,
    length_interval_contains};
use crate::literals::answers_follow;
use crate::emptiness::evaluator_sound;
use crate::forbidden::{lemma_forbids_sound, lemma_forbids_in_objects_sound};
use crate::name_domains::{string_answers_sound, lemma_name_domain_sound};
use crate::properties::lemma_guaranteed_names_present;
use crate::properties::{guaranteed_names, guaranteed_property_name_closure};
use crate::types::{may_have_type, obviously_accepts_type, possible_json_type_mask, whole_json_types_accepted_mask,
    may_accept_some_type, may_accept_other_type, lemma_possible_mask_tests, lemma_type_restriction};
use crate::literals::{matcher_agrees, matcher_callable};
use crate::emptiness::{evaluator_agrees, evaluator_callable};
use crate::forbidden::{forbids, forbids_in_objects, oracles_agree, schema_forbids_property_name_for_objects};
use crate::name_domains::{name_domain, string_answers, domain_matches, finite_property_name_strings_superset};

verus! {

/// Whether both oracles answer as `m`, `ev` and `evs` do.
pub open spec fn count_oracles_agree<F: Fn(&str, &str) -> Option<bool>, G: Fn(&SchemaNode, &JsonValue) -> bool>(
    matcher: F, evaluator: G, m: spec_fn(Seq<char>, Seq<char>) -> Option<bool>, ev: spec_fn(SchemaNode, JsonValue) -> bool,
    evs: spec_fn(SchemaNode, Seq<char>) -> bool) -> bool {
    oracles_agree(matcher, evaluator, m, ev) && string_answers(evaluator, evs)
}

/// Whether `s` forbids member `n`, by the general or the object-scoped test.
pub open spec fn forbids_any(s: SchemaNode, n: Seq<char>, m: spec_fn(Seq<char>, Seq<char>) -> Option<bool>,
    ev: spec_fn(SchemaNode, JsonValue) -> bool) -> bool {
    forbids(s, n, m, ev) || forbids_in_objects(s, n, m, ev)
}

/// How many of the first `k` `properties` entries name a member `s` does
/// not forbid.
pub open spec fn usable_declared(props: Seq<(String, SchemaNode)>, k: nat, s: SchemaNode,
    m: spec_fn(Seq<char>, Seq<char>) -> Option<bool>, ev: spec_fn(SchemaNode, JsonValue) -> bool) -> nat
    decreases k,
{
    if k == 0 || k > props.len() {
        0
    } else {
        usable_declared(props, (k - 1) as nat, s, m, ev) + if !forbids_any(s, props[k - 1].0@, m, ev) { 1nat } else { 0nat }
    }
}

/// The smaller of an optional bound and `b`.
pub open spec fn cap(a: Option<u64>, b: u64) -> Option<u64> {
    Some(match a {
        None => b,
        Some(x) => if x <= b { x } else { b },
    })
}

/// The number of names every object `s` accepts carries.
pub open spec fn implied_count(s: SchemaNode) -> u64 {
    if guaranteed_names(s).finite() { guaranteed_names(s).len() as u64 } else { 0 }
}

/// The count interval of an object schema:
/// - at least `minProperties` and the number of names every accepted object
///   carries;
/// - at most `maxProperties`; for a closed object (no patterns,
///   `additionalProperties: false`) at most its declared names that it does
///   not forbid; with a finite `propertyNames` domain, at most the names of
///   that domain it does not forbid.
pub open spec fn object_node_bound(s: SchemaNode, m: spec_fn(Seq<char>, Seq<char>) -> Option<bool>,
    ev: spec_fn(SchemaNode, JsonValue) -> bool, evs: spec_fn(SchemaNode, Seq<char>) -> bool) -> LengthInterval {
    match s.kind {
        SchemaNodeKind::Object { properties, pattern_properties, additional, property_names, property_count, .. } => {
            let implied = implied_count(s);
            let lower: u64 = if property_count.min as u64 >= implied { property_count.min as u64 } else { implied };
            let upper0: Option<u64> = match property_count.max {
                Some(x) => Some(x as u64),
                None => None,
            };
            let upper1 = if pattern_properties@.len() == 0 && additional.kind == SchemaNodeKind::BoolSchema(false) {
                cap(upper0, usable_declared(properties@, properties@.len(), s, m, ev) as u64)
            } else {
                upper0
            };
            let upper2 = match name_domain(*property_names, evs) {
                Some(d) => if d.finite() && d.filter(|n: Seq<char>| !forbids_any(s, n, m, ev)).len() <= u64::MAX {
                    cap(upper1, d.filter(|n: Seq<char>| !forbids_any(s, n, m, ev)).len() as u64)
                } else {
                    upper1
                },
                None => upper1,
            };
            LengthInterval { lower, upper: upper2, empty: upper2 matches Some(u) && lower > u }
        },
        _ => empty_interval(),
    }
}

/// The smallest and largest member count of the objects among the first
/// `n` values: `Some(None)` when they hold no object.
pub open spec fn enum_object_sizes(values: Seq<JsonValue>, n: nat) -> Option<Option<(u64, u64)>>
    decreases n,
{
    if n == 0 || n > values.len() {
        Some(None)
    } else {
        match enum_object_sizes(values, (n - 1) as nat) {
            None => None,
            Some(acc) => match values[n - 1] {
                JsonValue::Object(members) => if members@.len() <= u64::MAX {
                    let l = members@.len() as u64;
                    Some(Some(match acc {
                        None => (l, l),
                        Some((lo, hi)) => (if lo <= l { lo } else { l }, if hi >= l { hi } else { l }),
                    }))
                } else {
                    None
                },
                _ => Some(acc),
            },
        }
    }
}

/// An `allOf` interval raised to the number of names every accepted object
/// carries.
pub open spec fn with_implied_lower(iv: LengthInterval, s: SchemaNode) -> LengthInterval {
    let implied = implied_count(s);
    let lower = if iv.lower >= implied { iv.lower } else { implied };
    LengthInterval { lower, upper: iv.upper, empty: iv.empty || (iv.upper matches Some(u) && lower > u) }
}

/// The member-count interval of a schema, from its shape: `false` holds no
/// object; object schemas give `object_node_bound`; `const` and `enum` give
/// the sizes of their objects; `if` and the applicators combine as for
/// string lengths, `allOf` raised to the names every accepted object
/// carries; anything else has no bound (`None`).
pub open spec fn object_count_bound(s: SchemaNode, m: spec_fn(Seq<char>, Seq<char>) -> Option<bool>,
    ev: spec_fn(SchemaNode, JsonValue) -> bool, evs: spec_fn(SchemaNode, Seq<char>) -> bool) -> Option<LengthInterval>
    decreases s, 0nat,
{
    match s.kind {
        SchemaNodeKind::BoolSchema(b) => if b { None } else { Some(empty_interval()) },
        SchemaNodeKind::Object { .. } => Some(object_node_bound(s, m, ev, evs)),
        SchemaNodeKind::Const(v) => match v {
            JsonValue::Object(members) => if members@.len() <= u64::MAX {
                Some(LengthInterval { lower: members@.len() as u64, upper: Some(members@.len() as u64), empty: false })
            } else {
                None
            },
            _ => Some(empty_interval()),
        },
        SchemaNodeKind::Enum(values) => match enum_object_sizes(values@, values@.len()) {
            None => None,
            Some(None) => Some(empty_interval()),
            Some(Some((lo, hi))) => Some(LengthInterval { lower: lo, upper: Some(hi), empty: false }),
        },
        SchemaNodeKind::IfThenElse { if_schema, then_schema, else_schema } => match (then_schema, else_schema) {
            (Some(t), Some(e)) => match (object_count_bound(*t, m, ev, evs), object_count_bound(*e, m, ev, evs)) {
                (Some(a), Some(b)) => Some(interval_hull(a, b)),
                _ => None,
            },
            (Some(t), None) => if obviously_accepts_type(*if_schema, JSON_TYPE_OBJECT) {
                object_count_bound(*t, m, ev, evs)
            } else {
                None
            },
            (None, Some(e)) => if !may_have_type(*if_schema, JSON_TYPE_OBJECT) {
                object_count_bound(*e, m, ev, evs)
            } else {
                None
            },
            (None, None) => None,
        },
        SchemaNodeKind::AllOf(children) => match count_bound_all(children@, children@.len(), m, ev, evs) {
            None => None,
            Some(iv) => Some(with_implied_lower(iv, s)),
        },
        SchemaNodeKind::AnyOf(children) => union_bound(count_bound_any(children@, children@.len(), m, ev, evs)),
        SchemaNodeKind::OneOf(children) => union_bound(count_bound_any(children@, children@.len(), m, ev, evs)),
        _ => None,
    }
}

/// The intersection of the bounded ones among the first `n` conjuncts.
pub open spec fn count_bound_all(children: Seq<SchemaNode>, n: nat, m: spec_fn(Seq<char>, Seq<char>) -> Option<bool>,
    ev: spec_fn(SchemaNode, JsonValue) -> bool, evs: spec_fn(SchemaNode, Seq<char>) -> bool) -> Option<LengthInterval>
    decreases children, n,
{
    if n == 0 || n > children.len() {
        None
    } else {
        let prev = count_bound_all(children, (n - 1) as nat, m, ev, evs);
        match object_count_bound(children[n - 1], m, ev, evs) {
            None => prev,
            Some(iv) => Some(interval_intersection(
                match prev {
                    None => unbounded_interval(),
                    Some(a) => a,
                },
                iv,
            )),
        }
    }
}

/// The hull over the first `n` branches that may accept objects.
pub open spec fn count_bound_any(children: Seq<SchemaNode>, n: nat, m: spec_fn(Seq<char>, Seq<char>) -> Option<bool>,
    ev: spec_fn(SchemaNode, JsonValue) -> bool, evs: spec_fn(SchemaNode, Seq<char>) -> bool) -> Option<Option<LengthInterval>>
    decreases children, n,
{
    if n == 0 || n > children.len() {
        Some(None)
    } else {
        match count_bound_any(children, (n - 1) as nat, m, ev, evs) {
            None => None,
            Some(acc) => if !may_have_type(children[n - 1], JSON_TYPE_OBJECT) {
                Some(acc)
            } else {
                match object_count_bound(children[n - 1], m, ev, evs) {
                    None => None,
                    Some(iv) => Some(Some(match acc {
                        None => iv,
                        Some(a) => interval_hull(a, iv),
                    })),
                }
            },
        }
    }
}

/// How many `properties` entries name a member `schema` does not forbid.
fn usable_declared_count<F: Fn(&str, &str) -> Option<bool>, G: Fn(&SchemaNode, &JsonValue) -> bool>(
    schema: &SchemaNode, properties: &Vec<(String, SchemaNode)>, matcher: &F, evaluator: &G) -> (r: u64)
    requires
        matcher_callable(*matcher),
        evaluator_callable(*evaluator),
    ensures
        r <= properties@.len(),
        forall|m: spec_fn(Seq<char>, Seq<char>) -> Option<bool>, ev: spec_fn(SchemaNode, JsonValue) -> bool|
            #[trigger] oracles_agree(*matcher, *evaluator, m, ev) ==> r == usable_declared(properties@, properties@.len(), *schema, m, ev),
{
    let mut count: u64 = 0;
    let mut i: usize = 0;
    while i < properties.len()
        invariant
            i <= properties@.len(),
            count <= i,
            matcher_callable(*matcher),
            evaluator_callable(*evaluator),
            forall|m: spec_fn(Seq<char>, Seq<char>) -> Option<bool>, ev: spec_fn(SchemaNode, JsonValue) -> bool|
                #[trigger] oracles_agree(*matcher, *evaluator, m, ev) ==> count == usable_declared(properties@, i as nat, *schema, m, ev),
        decreases properties@.len() - i,
    {
        let forbidden = schema_forbids_property_name_for_objects(schema, properties[i].0.as_str(), matcher, evaluator);
        if !forbidden {
            count = count + 1;
        }
        i = i + 1;
    }
    count
}

/// How many of the distinct `names` name a member `schema` does not forbid.
fn usable_domain_count<F: Fn(&str, &str) -> Option<bool>, G: Fn(&SchemaNode, &JsonValue) -> bool>(
    schema: &SchemaNode, names: &Vec<String>, matcher: &F, evaluator: &G) -> (r: u64)
    requires
        matcher_callable(*matcher),
        evaluator_callable(*evaluator),
        distinct_names(names@),
    ensures
        r <= names@.len(),
        forall|m: spec_fn(Seq<char>, Seq<char>) -> Option<bool>, ev: spec_fn(SchemaNode, JsonValue) -> bool|
            #[trigger] oracles_agree(*matcher, *evaluator, m, ev)
            ==> name_set(names@).filter(|n: Seq<char>| !forbids_any(*schema, n, m, ev)).finite()
                && r == name_set(names@).filter(|n: Seq<char>| !forbids_any(*schema, n, m, ev)).len(),
{
    let mut count: u64 = 0;
    let mut i: usize = 0;
    proof {
        assert forall|m: spec_fn(Seq<char>, Seq<char>) -> Option<bool>, ev: spec_fn(SchemaNode, JsonValue) -> bool|
            #[trigger] oracles_agree(*matcher, *evaluator, m, ev)
            implies name_set(names@.take(0)).filter(|n: Seq<char>| !forbids_any(*schema, n, m, ev)).finite()
                && count == name_set(names@.take(0)).filter(|n: Seq<char>| !forbids_any(*schema, n, m, ev)).len() by {
            assert(name_set(names@.take(0)).filter(|n: Seq<char>| !forbids_any(*schema, n, m, ev)) =~= Set::empty());
        }
    }
    while i < names.len()
        invariant
            i <= names@.len(),
            count <= i,
            distinct_names(names@),
            matcher_callable(*matcher),
            evaluator_callable(*evaluator),
            forall|m: spec_fn(Seq<char>, Seq<char>) -> Option<bool>, ev: spec_fn(SchemaNode, JsonValue) -> bool|
                #[trigger] oracles_agree(*matcher, *evaluator, m, ev)
                ==> name_set(names@.take(i as int)).filter(|n: Seq<char>| !forbids_any(*schema, n, m, ev)).finite()
                    && count == name_set(names@.take(i as int)).filter(|n: Seq<char>| !forbids_any(*schema, n, m, ev)).len(),
        decreases names@.len() - i,
    {
        let forbidden = schema_forbids_property_name_for_objects(schema, names[i].as_str(), matcher, evaluator);
        proof {
            crate::names::lemma_name_set_take(names@, i as int);
            assert forall|m: spec_fn(Seq<char>, Seq<char>) -> Option<bool>, ev: spec_fn(SchemaNode, JsonValue) -> bool|
                #[trigger] oracles_agree(*matcher, *evaluator, m, ev)
                implies name_set(names@.take(i + 1)).filter(|n: Seq<char>| !forbids_any(*schema, n, m, ev)).finite()
                    && (if forbidden { count as int } else { count + 1 }) == name_set(names@.take(i + 1)).filter(|n: Seq<char>| !forbids_any(*schema, n, m, ev)).len() by {
                let p = |n: Seq<char>| !forbids_any(*schema, n, m, ev);
                let before = name_set(names@.take(i as int)).filter(p);
                let after = name_set(names@.take(i + 1)).filter(p);
                let x = names@[i as int]@;
                assert(forbidden == forbids_any(*schema, x, m, ev));
                assert(!name_set(names@.take(i as int)).contains(x)) by {
                    if name_set(names@.take(i as int)).contains(x) {
                        let k = choose|k: int| 0 <= k < names@.take(i as int).len() && (#[trigger] names@.take(i as int)[k])@ == x;
                        assert(names@[k]@ == names@[i as int]@);
                    }
                }
                if forbidden {
                    assert(after =~= before);
                } else {
                    assert(after =~= before.insert(x));
                }
            }
        }
        if !forbidden {
            count = count + 1;
        }
        i = i + 1;
    }
    proof {
        if names@.len() > 0 {
            crate::names::lemma_name_set_take(names@, 0);
        } else {
            assert(names@.take(0) =~= names@);
        }
    }
    count
}

/// The count interval of the object schema `schema` (see `object_node_bound`).
fn object_node_interval<F: Fn(&str, &str) -> Option<bool>, G: Fn(&SchemaNode, &JsonValue) -> bool>(
    schema: &SchemaNode, matcher: &F, evaluator: &G) -> (r: LengthInterval)
    requires
        matcher_callable(*matcher),
        evaluator_callable(*evaluator),
        schema.kind is Object,
    ensures
        forall|m: spec_fn(Seq<char>, Seq<char>) -> Option<bool>, ev: spec_fn(SchemaNode, JsonValue) -> bool,
            evs: spec_fn(SchemaNode, Seq<char>) -> bool|
            #[trigger] count_oracles_agree(*matcher, *evaluator, m, ev, evs) ==> r == object_node_bound(*schema, m, ev, evs),
{
    match &schema.kind {
        SchemaNodeKind::Object { properties, pattern_properties, additional, property_names, property_count, .. } => {
            let guaranteed = guaranteed_property_name_closure(schema);
            proof { lemma_distinct_name_set_len(guaranteed@); }
            let implied = guaranteed.len() as u64;
            let syntactic = property_count.min as u64;
            let lower = if syntactic >= implied { syntactic } else { implied };
            let mut upper: Option<u64> = match property_count.max {
                Some(x) => Some(x as u64),
                None => None,
            };
            let closed = pattern_properties.len() == 0 && match &additional.kind {
                SchemaNodeKind::BoolSchema(b) => !*b,
                _ => false,
            };
            let ghost upper0 = upper;
            if closed {
                let declared = usable_declared_count(schema, properties, matcher, evaluator);
                upper = Some(match upper {
                    None => declared,
                    Some(x) => if x <= declared { x } else { declared },
                });
            }
            let ghost upper1 = upper;
            let domain = finite_property_name_strings_superset(property_names, evaluator);
            match domain {
                Some(names) => {
                    proof { lemma_distinct_name_set_len(names@); }
                    let usable = usable_domain_count(schema, &names, matcher, evaluator);
                    upper = Some(match upper {
                        None => usable,
                        Some(x) => if x <= usable { x } else { usable },
                    });
                    proof {
                        assert forall|m: spec_fn(Seq<char>, Seq<char>) -> Option<bool>, ev: spec_fn(SchemaNode, JsonValue) -> bool,
                            evs: spec_fn(SchemaNode, Seq<char>) -> bool|
                            #[trigger] count_oracles_agree(*matcher, *evaluator, m, ev, evs)
                            implies upper == (match name_domain(**property_names, evs) {
                                Some(d) => if d.finite() && d.filter(|n: Seq<char>| !forbids_any(*schema, n, m, ev)).len() <= u64::MAX {
                                    cap(upper1, d.filter(|n: Seq<char>| !forbids_any(*schema, n, m, ev)).len() as u64)
                                } else {
                                    upper1
                                },
                                None => upper1,
                            }) by {
                            assert(string_answers(*evaluator, evs));
                            assert(oracles_agree(*matcher, *evaluator, m, ev));
                            assert(name_domain(**property_names, evs) == Some(name_set(names@)));
                        }
                    }
                },
                None => {},
            }
            let r = LengthInterval {
                lower,
                upper,
                empty: match upper {
                    Some(u) => lower > u,
                    None => false,
                },
            };
            proof {
                assert forall|m: spec_fn(Seq<char>, Seq<char>) -> Option<bool>, ev: spec_fn(SchemaNode, JsonValue) -> bool,
                    evs: spec_fn(SchemaNode, Seq<char>) -> bool|
                    #[trigger] count_oracles_agree(*matcher, *evaluator, m, ev, evs) implies r == object_node_bound(*schema, m, ev, evs) by {
                    assert(string_answers(*evaluator, evs));
                    assert(oracles_agree(*matcher, *evaluator, m, ev));
                    assert(implied == implied_count(*schema));
                    assert(closed == (pattern_properties@.len() == 0 && additional.kind == SchemaNodeKind::BoolSchema(false)));
                }
            }
            r
        },
        _ => LengthInterval::empty(),
    }
}

/// The member-count interval of `schema` (see `object_count_bound`);
/// `matcher` answers supported patterns and `evaluator` says whether a
/// schema accepts a value.
pub fn object_property_count_interval_bound<F: Fn(&str, &str) -> Option<bool>, G: Fn(&SchemaNode, &JsonValue) -> bool>(
    schema: &SchemaNode, matcher: &F, evaluator: &G) -> (r: Option<LengthInterval>)
    requires
        matcher_callable(*matcher),
        evaluator_callable(*evaluator),
    ensures
        forall|m: spec_fn(Seq<char>, Seq<char>) -> Option<bool>, ev: spec_fn(SchemaNode, JsonValue) -> bool,
            evs: spec_fn(SchemaNode, Seq<char>) -> bool|
            #[trigger] count_oracles_agree(*matcher, *evaluator, m, ev, evs) ==> r == object_count_bound(*schema, m, ev, evs),
    decreases *schema, 1nat,
{
    match &schema.kind {
        SchemaNodeKind::BoolSchema(b) => if *b {
            None
        } else {
            Some(LengthInterval::empty())
        },
        SchemaNodeKind::Object { .. } => Some(object_node_interval(schema, matcher, evaluator)),
        SchemaNodeKind::Const(value) => match value.as_object() {
            Some(members) => {
                let len = members.len() as u64;
                Some(LengthInterval { lower: len, upper: Some(len), empty: false })
            },
            None => Some(LengthInterval::empty()),
        },
        SchemaNodeKind::Enum(values) => {
            let mut bounds: Option<(u64, u64)> = None;
            let mut i: usize = 0;
            while i < values.len()
                invariant
                    i <= values@.len(),
                    enum_object_sizes(values@, i as nat) == Some(bounds),
                decreases values@.len() - i,
            {
                match values[i].as_object() {
                    Some(members) => {
                        let len = members.len() as u64;
                        bounds = Some(match bounds {
                            None => (len, len),
                            Some((lo, hi)) => (if lo <= len { lo } else { len }, if hi >= len { hi } else { len }),
                        });
                    },
                    None => {},
                }
                i = i + 1;
            }
            match bounds {
                Some((lower, upper)) => Some(LengthInterval { lower, upper: Some(upper), empty: false }),
                None => Some(LengthInterval::empty()),
            }
        },
        SchemaNodeKind::IfThenElse { if_schema, then_schema, else_schema } => match (then_schema, else_schema) {
            (Some(then_schema), Some(else_schema)) => {
                match (object_property_count_interval_bound(then_schema, matcher, evaluator),
                    object_property_count_interval_bound(else_schema, matcher, evaluator)) {
                    (Some(then_interval), Some(else_interval)) => Some(then_interval.hull(else_interval)),
                    _ => None,
                }
            },
            (Some(then_schema), None) => {
                let whole = whole_json_types_accepted_mask(if_schema);
                proof { crate::bits::lemma_single_bits(JSON_TYPE_OBJECT, JSON_TYPE_OBJECT); }
                if whole & JSON_TYPE_OBJECT != 0 {
                    object_property_count_interval_bound(then_schema, matcher, evaluator)
                } else {
                    None
                }
            },
            (None, Some(else_schema)) => {
                let possible = possible_json_type_mask(if_schema);
                proof { crate::bits::lemma_single_bits(JSON_TYPE_OBJECT, JSON_TYPE_OBJECT); }
                if possible & JSON_TYPE_OBJECT == 0 {
                    object_property_count_interval_bound(else_schema, matcher, evaluator)
                } else {
                    None
                }
            },
            (None, None) => None,
        },
        SchemaNodeKind::AllOf(children) => {
            let mut interval = LengthInterval::unbounded();
            let mut saw_bound = false;
            let mut i: usize = 0;
            while i < children.len()
                invariant
                    i <= children@.len(),
                    schema.kind == SchemaNodeKind::AllOf(*children),
                    matcher_callable(*matcher),
                    evaluator_callable(*evaluator),
                    forall|m: spec_fn(Seq<char>, Seq<char>) -> Option<bool>, ev: spec_fn(SchemaNode, JsonValue) -> bool,
                        evs: spec_fn(SchemaNode, Seq<char>) -> bool|
                        #[trigger] count_oracles_agree(*matcher, *evaluator, m, ev, evs) ==> if saw_bound {
                            count_bound_all(children@, i as nat, m, ev, evs) == Some(interval)
                        } else {
                            count_bound_all(children@, i as nat, m, ev, evs) is None && interval == unbounded_interval()
                        },
                decreases children@.len() - i,
            {
                proof {
                    assert(decreases_to!(*schema => schema.kind));
                    assert(decreases_to!(schema.kind => schema.kind->AllOf_0));
                    assert(decreases_to!(*children => children[i as int]));
                }
                match object_property_count_interval_bound(&children[i], matcher, evaluator) {
                    Some(child_interval) => {
                        interval = interval.intersect(child_interval);
                        saw_bound = true;
                    },
                    None => {},
                }
                i = i + 1;
            }
            if saw_bound {
                let guaranteed = guaranteed_property_name_closure(schema);
                proof { lemma_distinct_name_set_len(guaranteed@); }
                let implied = guaranteed.len() as u64;
                let lower = if interval.lower >= implied { interval.lower } else { implied };
                let empty = interval.empty || match interval.upper {
                    Some(u) => lower > u,
                    None => false,
                };
                Some(LengthInterval { lower, upper: interval.upper, empty })
            } else {
                None
            }
        },
        SchemaNodeKind::AnyOf(children) => {
            match count_union(schema, children, matcher, evaluator) {
                None => None,
                Some(hull) => match hull {
                    Some(iv) => Some(iv),
                    None => Some(LengthInterval::empty()),
                },
            }
        },
        SchemaNodeKind::OneOf(children) => {
            match count_union(schema, children, matcher, evaluator) {
                None => None,
                Some(hull) => match hull {
                    Some(iv) => Some(iv),
                    None => Some(LengthInterval::empty()),
                },
            }
        },
        _ => None,
    }
}

/// Once a union fold has met an unbounded object branch, it stays unbounded.
proof fn lemma_count_bound_any_none_persists(children: Seq<SchemaNode>, n: nat, k: nat,
    m: spec_fn(Seq<char>, Seq<char>) -> Option<bool>, ev: spec_fn(SchemaNode, JsonValue) -> bool, evs: spec_fn(SchemaNode, Seq<char>) -> bool)
    requires
        n <= k <= children.len(),
        count_bound_any(children, n, m, ev, evs) is None,
    ensures
        count_bound_any(children, k, m, ev, evs) is None,
    decreases k - n,
{
    if n < k {
        lemma_count_bound_any_none_persists(children, n, (k - 1) as nat, m, ev, evs);
    }
}

/// The hull over the object branches of the union `schema` (see
/// `count_bound_any`).
fn count_union<F: Fn(&str, &str) -> Option<bool>, G: Fn(&SchemaNode, &JsonValue) -> bool>(
    schema: &SchemaNode, children: &Vec<SchemaNode>, matcher: &F, evaluator: &G) -> (r: Option<Option<LengthInterval>>)
    requires
        matcher_callable(*matcher),
        evaluator_callable(*evaluator),
        schema.kind == SchemaNodeKind::AnyOf(*children) || schema.kind == SchemaNodeKind::OneOf(*children),
    ensures
        forall|m: spec_fn(Seq<char>, Seq<char>) -> Option<bool>, ev: spec_fn(SchemaNode, JsonValue) -> bool,
            evs: spec_fn(SchemaNode, Seq<char>) -> bool|
            #[trigger] count_oracles_agree(*matcher, *evaluator, m, ev, evs) ==> r == count_bound_any(children@, children@.len(), m, ev, evs),
    decreases *schema, 0nat,
{
    let mut hull: Option<LengthInterval> = None;
    let mut i: usize = 0;
    while i < children.len()
        invariant
            i <= children@.len(),
            schema.kind == SchemaNodeKind::AnyOf(*children) || schema.kind == SchemaNodeKind::OneOf(*children),
            matcher_callable(*matcher),
            evaluator_callable(*evaluator),
            forall|m: spec_fn(Seq<char>, Seq<char>) -> Option<bool>, ev: spec_fn(SchemaNode, JsonValue) -> bool,
                evs: spec_fn(SchemaNode, Seq<char>) -> bool|
                #[trigger] count_oracles_agree(*matcher, *evaluator, m, ev, evs) ==> count_bound_any(children@, i as nat, m, ev, evs) == Some(hull),
        decreases children@.len() - i,
    {
        proof {
            assert(decreases_to!(*schema => schema.kind));
            if schema.kind == SchemaNodeKind::AnyOf(*children) {
                assert(decreases_to!(schema.kind => schema.kind->AnyOf_0));
            } else {
                assert(decreases_to!(schema.kind => schema.kind->OneOf_0));
            }
            assert(decreases_to!(*children => children[i as int]));
        }
        let possible = possible_json_type_mask(&children[i]);
        proof { crate::bits::lemma_single_bits(JSON_TYPE_OBJECT, JSON_TYPE_OBJECT); }
        if possible & JSON_TYPE_OBJECT != 0 {
            match object_property_count_interval_bound(&children[i], matcher, evaluator) {
                Some(child_interval) => {
                    hull = Some(match hull {
                        None => child_interval,
                        Some(acc) => acc.hull(child_interval),
                    });
                },
                None => {
                    proof {
                        assert forall|m: spec_fn(Seq<char>, Seq<char>) -> Option<bool>, ev: spec_fn(SchemaNode, JsonValue) -> bool,
                            evs: spec_fn(SchemaNode, Seq<char>) -> bool|
                            #[trigger] count_oracles_agree(*matcher, *evaluator, m, ev, evs)
                            implies count_bound_any(children@, children@.len(), m, ev, evs) is None by {
                            assert(count_bound_any(children@, (i + 1) as nat, m, ev, evs) is None);
                            lemma_count_bound_any_none_persists(children@, (i + 1) as nat, children@.len(), m, ev, evs);
                        }
                    }
                    return None;
                },
            }
        }
        i = i + 1;
    }
    Some(hull)
}

/// An object without repeated member names has as many names as members.
proof fn lemma_distinct_member_names_len(members: Seq<(String, JsonValue)>)
    requires
        forall|i: int, j: int| 0 <= i < j < members.len() ==> (#[trigger] members[i]).0@ != (#[trigger] members[j]).0@,
    ensures
        member_names(members).finite(),
        member_names(members).len() == members.len(),
    decreases members.len(),
{
    if members.len() == 0 {
        assert(member_names(members) =~= Set::empty());
    } else {
        let init = members.drop_last();
        let last = members.last();
        assert forall|i: int, j: int| 0 <= i < j < init.len() implies (#[trigger] init[i]).0@ != (#[trigger] init[j]).0@ by {
            assert(init[i] == members[i] && init[j] == members[j]);
        }
        lemma_distinct_member_names_len(init);
        assert(member_names(members) =~= member_names(init).insert(last.0@)) by {
            assert forall|n: Seq<char>| member_names(members).contains(n) <==> member_names(init).insert(last.0@).contains(n) by {
                if member_names(members).contains(n) {
                    let i = choose|i: int| 0 <= i < members.len() && (#[trigger] members[i]).0@ == n;
                    if i < init.len() {
                        assert(init[i] == members[i]);
                    }
                }
                if member_names(init).contains(n) {
                    let i = choose|i: int| 0 <= i < init.len() && (#[trigger] init[i]).0@ == n;
                    assert(members[i] == init[i]);
                }
                if n == last.0@ {
                    assert(members[members.len() - 1] == last);
                }
            }
        }
        assert(!member_names(init).contains(last.0@)) by {
            if member_names(init).contains(last.0@) {
                let i = choose|i: int| 0 <= i < init.len() && (#[trigger] init[i]).0@ == last.0@;
                assert(members[i] == init[i]);
                assert(members[members.len() - 1] == last);
            }
        }
    }
}

/// The names of the first `k` `properties` entries that `s` does not forbid.
pub open spec fn usable_names(props: Seq<(String, SchemaNode)>, k: nat, s: SchemaNode,
    m: spec_fn(Seq<char>, Seq<char>) -> Option<bool>, ev: spec_fn(SchemaNode, JsonValue) -> bool) -> Set<Seq<char>> {
    Set::new(|n: Seq<char>| exists|j: int| 0 <= j < k && j < props.len() && (#[trigger] props[j]).0@ == n && !forbids_any(s, n, m, ev))
}

/// There are no more usable declared names than usable entries.
proof fn lemma_usable_names_len(props: Seq<(String, SchemaNode)>, k: nat, s: SchemaNode,
    m: spec_fn(Seq<char>, Seq<char>) -> Option<bool>, ev: spec_fn(SchemaNode, JsonValue) -> bool)
    requires
        k <= props.len(),
    ensures
        usable_names(props, k, s, m, ev).finite(),
        usable_names(props, k, s, m, ev).len() <= usable_declared(props, k, s, m, ev),
    decreases k,
{
    if k == 0 {
        assert(usable_names(props, k, s, m, ev) =~= Set::empty());
    } else {
        lemma_usable_names_len(props, (k - 1) as nat, s, m, ev);
        let prev = usable_names(props, (k - 1) as nat, s, m, ev);
        let x = props[k - 1].0@;
        if !forbids_any(s, x, m, ev) {
            assert(usable_names(props, k, s, m, ev) =~= prev.insert(x));
        } else {
            assert(usable_names(props, k, s, m, ev) =~= prev);
        }
    }
}

/// What the first `n` enumeration values say of their object sizes.
proof fn lemma_enum_object_sizes(values: Seq<JsonValue>, n: nat)
    requires
        n <= values.len(),
        enum_object_sizes(values, n) is Some,
    ensures
        match enum_object_sizes(values, n)->0 {
            None => forall|i: int| 0 <= i < n ==> !(#[trigger] values[i] is Object),
            Some((lo, hi)) => lo <= hi && forall|i: int| 0 <= i < n && (#[trigger] values[i] is Object)
                ==> lo <= values[i]->Object_0@.len() <= hi,
        },
    decreases n,
{
    if n > 0 {
        lemma_enum_object_sizes(values, (n - 1) as nat);
    }
}

/// Whether the oracles' answers are sound for the regex semantics `rx`.
pub open spec fn answers_sound(m: spec_fn(Seq<char>, Seq<char>) -> Option<bool>, ev: spec_fn(SchemaNode, JsonValue) -> bool,
    evs: spec_fn(SchemaNode, Seq<char>) -> bool, rx: spec_fn(Seq<char>, Seq<char>) -> bool) -> bool {
    answers_follow(m, rx) && evaluator_sound(ev, rx) && string_answers_sound(evs, rx)
}

/// An object schema's count interval holds every accepted object's size.
proof fn lemma_object_node_bound_sound(s: SchemaNode, members: Vec<(String, JsonValue)>,
    m: spec_fn(Seq<char>, Seq<char>) -> Option<bool>, ev: spec_fn(SchemaNode, JsonValue) -> bool,
    evs: spec_fn(SchemaNode, Seq<char>) -> bool, rx: spec_fn(Seq<char>, Seq<char>) -> bool)
    requires
        answers_sound(m, ev, evs, rx),
        s.kind is Object,
        json_wf(JsonValue::Object(members)),
        accepts(s, JsonValue::Object(members), rx),
    ensures
        length_in(object_node_bound(s, m, ev, evs), members@.len() as int),
{
    let v = JsonValue::Object(members);
    let names = member_names(members@);
    lemma_distinct_member_names_len(members@);
    assert forall|n: Seq<char>| #[trigger] names.contains(n) implies !forbids_any(s, n, m, ev) by {
        if forbids(s, n, m, ev) {
            lemma_forbids_sound(s, members, n, m, ev, rx);
        }
        if forbids_in_objects(s, n, m, ev) {
            lemma_forbids_in_objects_sound(s, members, n, m, ev, rx);
        }
    }
    match s.kind {
        SchemaNodeKind::Object { properties, pattern_properties, additional, property_names, property_count, .. } => {
            let len = members@.len();
            assert(len == members.len() && members.len() <= usize::MAX);
            lemma_guaranteed_names_present(s, v, rx);
            if guaranteed_names(s).finite() {
                vstd::set_lib::lemma_len_subset(guaranteed_names(s), names);
            }
            assert(implied_count(s) <= len);
            assert(property_count.min <= len);
            let lower: u64 = if property_count.min as u64 >= implied_count(s) { property_count.min as u64 } else { implied_count(s) };
            assert(lower <= len);
            let upper0: Option<u64> = match property_count.max {
                Some(x) => Some(x as u64),
                None => None,
            };
            assert(upper0 matches Some(u) ==> len <= u);
            if pattern_properties@.len() == 0 && additional.kind == SchemaNodeKind::BoolSchema(false) {
                let usable = usable_names(properties@, properties@.len(), s, m, ev);
                lemma_usable_names_len(properties@, properties@.len(), s, m, ev);
                assert forall|n: Seq<char>| names.contains(n) implies usable.contains(n) by {
                    let i = choose|i: int| 0 <= i < members@.len() && (#[trigger] members@[i]).0@ == n;
                    if !declared_name(properties@, n) {
                        assert(!pattern_named(pattern_properties@, members@[i].0@, rx));
                        assert(accepts(*additional, members@[i].1, rx));
                    }
                    let j = choose|j: int| 0 <= j < properties@.len() && (#[trigger] properties@[j]).0@ == n;
                    assert(names.contains(n));
                }
                vstd::set_lib::lemma_len_subset(names, usable);
                assert(usable_declared(properties@, properties@.len(), s, m, ev) <= properties@.len()) by {
                    lemma_usable_declared_bounded(properties@, properties@.len(), s, m, ev);
                }
                assert(properties@.len() == properties.len());
            }
            let upper1 = if pattern_properties@.len() == 0 && additional.kind == SchemaNodeKind::BoolSchema(false) {
                cap(upper0, usable_declared(properties@, properties@.len(), s, m, ev) as u64)
            } else {
                upper0
            };
            assert(upper1 matches Some(u) ==> len <= u);
            match name_domain(*property_names, evs) {
                Some(d) => if d.finite() && d.filter(|n: Seq<char>| !forbids_any(s, n, m, ev)).len() <= u64::MAX {
                    let kept = d.filter(|n: Seq<char>| !forbids_any(s, n, m, ev));
                    assert forall|n: Seq<char>| names.contains(n) implies kept.contains(n) by {
                        let i = choose|i: int| 0 <= i < members@.len() && (#[trigger] members@[i]).0@ == n;
                        assert(accepts(*property_names, JsonValue::String(members@[i].0), rx));
                        lemma_name_domain_sound(*property_names, members@[i].0, evs, rx);
                        assert(names.contains(n));
                    }
                    vstd::set_lib::lemma_len_subset(names, kept);
                },
                None => {},
            }
        },
        _ => {},
    }
}

/// The usable count is at most the number of entries.
proof fn lemma_usable_declared_bounded(props: Seq<(String, SchemaNode)>, k: nat, s: SchemaNode,
    m: spec_fn(Seq<char>, Seq<char>) -> Option<bool>, ev: spec_fn(SchemaNode, JsonValue) -> bool)
    ensures
        usable_declared(props, k, s, m, ev) <= k,
    decreases k,
{
    if k > 0 {
        lemma_usable_declared_bounded(props, (k - 1) as nat, s, m, ev);
    }
}

/// Law: every object a schema accepts (without repeated member names) has
/// its member count in the schema's count interval, and that interval is
/// well formed, for every regex semantics and oracles sound for it.
pub proof fn lemma_object_count_bound_sound(s: SchemaNode, members: Vec<(String, JsonValue)>,
    m: spec_fn(Seq<char>, Seq<char>) -> Option<bool>, ev: spec_fn(SchemaNode, JsonValue) -> bool,
    evs: spec_fn(SchemaNode, Seq<char>) -> bool, rx: spec_fn(Seq<char>, Seq<char>) -> bool)
    requires
        answers_sound(m, ev, evs, rx),
        json_wf(JsonValue::Object(members)),
        object_count_bound(s, m, ev, evs) is Some,
    ensures
        length_interval_wf(object_count_bound(s, m, ev, evs)->0),
        accepts(s, JsonValue::Object(members), rx) ==> length_in(object_count_bound(s, m, ev, evs)->0, members@.len() as int),
    decreases s, 0nat,
{
    let v = JsonValue::Object(members);
    match s.kind {
        SchemaNodeKind::Object { .. } => {
            if accepts(s, v, rx) {
                lemma_object_node_bound_sound(s, members, m, ev, evs, rx);
            }
        },
        SchemaNodeKind::Const(c) => {
            if accepts(s, v, rx) {
                assert(crate::json::json_eq(v, c));
            }
        },
        SchemaNodeKind::Enum(values) => {
            lemma_enum_object_sizes(values@, values@.len());
            if accepts(s, v, rx) {
                let i = choose|i: int| 0 <= i < values@.len() && crate::json::json_eq(v, #[trigger] values@[i]);
                assert(values@[i] is Object);
            }
        },
        SchemaNodeKind::IfThenElse { if_schema, then_schema, else_schema } => {
            crate::types::lemma_type_facts_sound(*if_schema, v, rx);
            match (then_schema, else_schema) {
                (Some(a), Some(b)) => {
                    lemma_object_count_bound_sound(*a, members, m, ev, evs, rx);
                    lemma_object_count_bound_sound(*b, members, m, ev, evs, rx);
                },
                (Some(a), None) => {
                    lemma_object_count_bound_sound(*a, members, m, ev, evs, rx);
                },
                (None, Some(b)) => {
                    lemma_object_count_bound_sound(*b, members, m, ev, evs, rx);
                },
                (None, None) => {},
            }
        },
        SchemaNodeKind::AllOf(children) => {
            assert(decreases_to!(s => s.kind));
            lemma_count_bound_all_sound(children@, children@.len(), members, m, ev, evs, rx);
            if accepts(s, v, rx) {
                lemma_guaranteed_names_present(s, v, rx);
                lemma_distinct_member_names_len(members@);
                if guaranteed_names(s).finite() {
                    vstd::set_lib::lemma_len_subset(guaranteed_names(s), member_names(members@));
                }
                assert(members@.len() == members.len() && members.len() <= usize::MAX);
                assert(forall|i: int| 0 <= i < children@.len() ==> accepts(#[trigger] children@[i], v, rx));
            }
        },
        SchemaNodeKind::AnyOf(children) => {
            lemma_count_bound_any_sound(children@, children@.len(), members, m, ev, evs, rx);
            if accepts(s, v, rx) {
                let i = choose|i: int| 0 <= i < children@.len() && accepts(#[trigger] children@[i], v, rx);
                assert(accepts(children@[i], v, rx));
            }
        },
        SchemaNodeKind::OneOf(children) => {
            lemma_count_bound_any_sound(children@, children@.len(), members, m, ev, evs, rx);
            if accepts(s, v, rx) {
                let i = choose|i: int| 0 <= i < children@.len() && accepts(#[trigger] children@[i], v, rx)
                    && forall|j: int| 0 <= j < children@.len() && j != i ==> !accepts(#[trigger] children@[j], v, rx);
                assert(accepts(children@[i], v, rx));
            }
        },
        _ => {},
    }
}

/// The `allOf` fold is sound.
proof fn lemma_count_bound_all_sound(children: Seq<SchemaNode>, n: nat, members: Vec<(String, JsonValue)>,
    m: spec_fn(Seq<char>, Seq<char>) -> Option<bool>, ev: spec_fn(SchemaNode, JsonValue) -> bool,
    evs: spec_fn(SchemaNode, Seq<char>) -> bool, rx: spec_fn(Seq<char>, Seq<char>) -> bool)
    requires
        answers_sound(m, ev, evs, rx),
        json_wf(JsonValue::Object(members)),
        n <= children.len(),
        count_bound_all(children, n, m, ev, evs) is Some,
    ensures
        length_interval_wf(count_bound_all(children, n, m, ev, evs)->0),
        (forall|i: int| 0 <= i < n ==> accepts(#[trigger] children[i], JsonValue::Object(members), rx))
            ==> length_in(count_bound_all(children, n, m, ev, evs)->0, members@.len() as int),
    decreases children, n,
{
    let v = JsonValue::Object(members);
    let prev = count_bound_all(children, (n - 1) as nat, m, ev, evs);
    if prev is Some {
        lemma_count_bound_all_sound(children, (n - 1) as nat, members, m, ev, evs, rx);
    }
    if object_count_bound(children[n - 1], m, ev, evs) is Some {
        lemma_object_count_bound_sound(children[n - 1], members, m, ev, evs, rx);
    }
    if forall|i: int| 0 <= i < n ==> accepts(#[trigger] children[i], v, rx) {
        assert(accepts(children[n - 1], v, rx));
        assert(forall|i: int| 0 <= i < n - 1 ==> accepts(#[trigger] children[i], v, rx));
    }
}

/// The union fold is sound.
proof fn lemma_count_bound_any_sound(children: Seq<SchemaNode>, n: nat, members: Vec<(String, JsonValue)>,
    m: spec_fn(Seq<char>, Seq<char>) -> Option<bool>, ev: spec_fn(SchemaNode, JsonValue) -> bool,
    evs: spec_fn(SchemaNode, Seq<char>) -> bool, rx: spec_fn(Seq<char>, Seq<char>) -> bool)
    requires
        answers_sound(m, ev, evs, rx),
        json_wf(JsonValue::Object(members)),
        n <= children.len(),
        count_bound_any(children, n, m, ev, evs) is Some,
    ensures
        match count_bound_any(children, n, m, ev, evs)->0 {
            None => forall|i: int| 0 <= i < n ==> !accepts(#[trigger] children[i], JsonValue::Object(members), rx),
            Some(iv) => length_interval_wf(iv) && forall|i: int| 0 <= i < n
                && accepts(#[trigger] children[i], JsonValue::Object(members), rx) ==> length_in(iv, members@.len() as int),
        },
    decreases children, n,
{
    let v = JsonValue::Object(members);
    if n > 0 {
        lemma_count_bound_any_sound(children, (n - 1) as nat, members, m, ev, evs, rx);
        crate::types::lemma_type_facts_sound(children[n - 1], v, rx);
        if may_have_type(children[n - 1], JSON_TYPE_OBJECT) {
            lemma_object_count_bound_sound(children[n - 1], members, m, ev, evs, rx);
        }
    }
}

/// The disjointness test on two member-count intervals.
pub open spec fn count_bounds_disjoint(left: SchemaNode, right: SchemaNode, m: spec_fn(Seq<char>, Seq<char>) -> Option<bool>,
    ev: spec_fn(SchemaNode, JsonValue) -> bool, evs: spec_fn(SchemaNode, Seq<char>) -> bool) -> bool {
    match (object_count_bound(left, m, ev, evs), object_count_bound(right, m, ev, evs)) {
        (Some(a), Some(b)) => a.empty || b.empty || strictly_before(a, b) || strictly_before(b, a),
        _ => false,
    }
}

/// Whether the member-count intervals of two schemas are known and do not
/// overlap (see `count_bounds_disjoint`); then no object is accepted by both.
pub fn object_property_count_intervals_are_disjoint<F: Fn(&str, &str) -> Option<bool>, G: Fn(&SchemaNode, &JsonValue) -> bool>(
    left: &SchemaNode, right: &SchemaNode, matcher: &F, evaluator: &G) -> (r: bool)
    requires
        matcher_callable(*matcher),
        evaluator_callable(*evaluator),
    ensures
        forall|m: spec_fn(Seq<char>, Seq<char>) -> Option<bool>, ev: spec_fn(SchemaNode, JsonValue) -> bool,
            evs: spec_fn(SchemaNode, Seq<char>) -> bool|
            #[trigger] count_oracles_agree(*matcher, *evaluator, m, ev, evs) ==> r == count_bounds_disjoint(*left, *right, m, ev, evs),
{
    let left_interval = match object_property_count_interval_bound(left, matcher, evaluator) {
        Some(iv) => iv,
        None => return false,
    };
    let right_interval = match object_property_count_interval_bound(right, matcher, evaluator) {
        Some(iv) => iv,
        None => return false,
    };
    left_interval.empty || right_interval.empty || length_interval_strictly_before(left_interval, right_interval)
        || length_interval_strictly_before(right_interval, left_interval)
}

/// Law: two schemas with disjoint member-count intervals accept no common
/// object (without repeated member names).
pub proof fn lemma_count_bounds_disjoint_sound(left: SchemaNode, right: SchemaNode, members: Vec<(String, JsonValue)>,
    m: spec_fn(Seq<char>, Seq<char>) -> Option<bool>, ev: spec_fn(SchemaNode, JsonValue) -> bool,
    evs: spec_fn(SchemaNode, Seq<char>) -> bool, rx: spec_fn(Seq<char>, Seq<char>) -> bool)
    requires
        answers_sound(m, ev, evs, rx),
        json_wf(JsonValue::Object(members)),
        count_bounds_disjoint(left, right, m, ev, evs),
    ensures
        !(accepts(left, JsonValue::Object(members), rx) && accepts(right, JsonValue::Object(members), rx)),
{
    lemma_object_count_bound_sound(left, members, m, ev, evs, rx);
    lemma_object_count_bound_sound(right, members, m, ev, evs, rx);
}

/// What `split_allof_object_count_is_impossible` decides: an object-only
/// `allOf` whose member-count interval is known and empty.
pub open spec fn split_object_count_conflict(s: SchemaNode, m: spec_fn(Seq<char>, Seq<char>) -> Option<bool>,
    ev: spec_fn(SchemaNode, JsonValue) -> bool, evs: spec_fn(SchemaNode, Seq<char>) -> bool) -> bool {
    &&& s.kind is AllOf
    &&& may_accept_some_type(s)
    &&& !may_accept_other_type(s, JSON_TYPE_OBJECT)
    &&& object_count_bound(s, m, ev, evs) matches Some(iv) && iv.empty
}

/// Whether `schema` is an object-only `allOf` whose member-count interval
/// is known and empty (see `split_object_count_conflict`); then it accepts
/// no well-formed value.
pub fn split_allof_object_count_is_impossible<F: Fn(&str, &str) -> Option<bool>, G: Fn(&SchemaNode, &JsonValue) -> bool>(
    schema: &SchemaNode, matcher: &F, evaluator: &G) -> (r: bool)
    requires
        matcher_callable(*matcher),
        evaluator_callable(*evaluator),
    ensures
        forall|m: spec_fn(Seq<char>, Seq<char>) -> Option<bool>, ev: spec_fn(SchemaNode, JsonValue) -> bool,
            evs: spec_fn(SchemaNode, Seq<char>) -> bool|
            #[trigger] count_oracles_agree(*matcher, *evaluator, m, ev, evs) ==> r == split_object_count_conflict(*schema, m, ev, evs),
{
    match &schema.kind {
        SchemaNodeKind::AllOf(_) => {},
        _ => return false,
    }
    let mask = possible_json_type_mask(schema);
    proof { lemma_possible_mask_tests(mask, *schema, JSON_TYPE_OBJECT); }
    if mask == 0 || mask & !JSON_TYPE_OBJECT != 0 {
        return false;
    }
    match object_property_count_interval_bound(schema, matcher, evaluator) {
        Some(interval) => interval.empty,
        None => false,
    }
}

/// Law: a schema with a split `allOf` member-count conflict accepts no
/// well-formed value.
pub proof fn lemma_split_object_count_conflict_sound(s: SchemaNode, v: JsonValue,
    m: spec_fn(Seq<char>, Seq<char>) -> Option<bool>, ev: spec_fn(SchemaNode, JsonValue) -> bool,
    evs: spec_fn(SchemaNode, Seq<char>) -> bool, rx: spec_fn(Seq<char>, Seq<char>) -> bool)
    requires
        answers_sound(m, ev, evs, rx),
        json_wf(v),
        split_object_count_conflict(s, m, ev, evs),
    ensures
        !accepts(s, v, rx),
{
    if accepts(s, v, rx) {
        lemma_type_restriction(s, JSON_TYPE_OBJECT, v, rx);
        lemma_object_count_bound_sound(s, v->Object_0, m, ev, evs, rx);
    }
}

/// What `split_allof_object_count_subset_of_object` decides: `sub` may
/// accept no type, or only objects, with a known member-count interval that
/// is empty or lies inside `sup`'s known one.
pub open spec fn object_count_subset(sub: SchemaNode, sup: SchemaNode, m: spec_fn(Seq<char>, Seq<char>) -> Option<bool>,
    ev: spec_fn(SchemaNode, JsonValue) -> bool, evs: spec_fn(SchemaNode, Seq<char>) -> bool) -> bool {
    !may_accept_some_type(sub) || (!may_accept_other_type(sub, JSON_TYPE_OBJECT) && match object_count_bound(sub, m, ev, evs) {
        None => false,
        Some(a) => a.empty || match object_count_bound(sup, m, ev, evs) {
            None => false,
            Some(b) => interval_contains(b, a),
        },
    })
}

/// Whether every value `sub` accepts is an object whose member count lies
/// in `sup`'s member-count interval (see `object_count_subset`).
pub fn split_allof_object_count_subset_of_object<F: Fn(&str, &str) -> Option<bool>, G: Fn(&SchemaNode, &JsonValue) -> bool>(
    sub: &SchemaNode, sup: &SchemaNode, matcher: &F, evaluator: &G) -> (r: bool)
    requires
        matcher_callable(*matcher),
        evaluator_callable(*evaluator),
    ensures
        forall|m: spec_fn(Seq<char>, Seq<char>) -> Option<bool>, ev: spec_fn(SchemaNode, JsonValue) -> bool,
            evs: spec_fn(SchemaNode, Seq<char>) -> bool|
            #[trigger] count_oracles_agree(*matcher, *evaluator, m, ev, evs) ==> r == object_count_subset(*sub, *sup, m, ev, evs),
{
    let sub_mask = possible_json_type_mask(sub);
    proof { lemma_possible_mask_tests(sub_mask, *sub, JSON_TYPE_OBJECT); }
    if sub_mask == 0 {
        return true;
    }
    if sub_mask & !JSON_TYPE_OBJECT != 0 {
        return false;
    }
    let sub_interval = match object_property_count_interval_bound(sub, matcher, evaluator) {
        Some(iv) => iv,
        None => return false,
    };
    if sub_interval.empty {
        return true;
    }
    let sup_interval = match object_property_count_interval_bound(sup, matcher, evaluator) {
        Some(iv) => iv,
        None => return false,
    };
    length_interval_contains(sup_interval, sub_interval)
}

/// Law: when `sub`'s member counts lie inside `sup`'s, every well-formed
/// value `sub` accepts is an object whose member count lies in `sup`'s
/// interval.
pub proof fn lemma_object_count_subset_sound(sub: SchemaNode, sup: SchemaNode, v: JsonValue,
    m: spec_fn(Seq<char>, Seq<char>) -> Option<bool>, ev: spec_fn(SchemaNode, JsonValue) -> bool,
    evs: spec_fn(SchemaNode, Seq<char>) -> bool, rx: spec_fn(Seq<char>, Seq<char>) -> bool)
    requires
        answers_sound(m, ev, evs, rx),
        json_wf(v),
        object_count_subset(sub, sup, m, ev, evs),
        accepts(sub, v, rx),
    ensures
        v is Object,
        object_count_bound(sup, m, ev, evs) is Some,
        length_in(object_count_bound(sup, m, ev, evs)->0, v->Object_0@.len() as int),
{
    lemma_type_restriction(sub, JSON_TYPE_OBJECT, v, rx);
    lemma_object_count_bound_sound(sub, v->Object_0, m, ev, evs, rx);
    if object_count_bound(sup, m, ev, evs) is Some {
        lemma_object_count_bound_sound(sup, v->Object_0, m, ev, evs, rx);
    }
}

} // verus!
