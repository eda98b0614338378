//! Property-name facts about the objects a schema accepts: names every
//! accepted object carries, and names whose presence alone makes an object
//! accepted. A negative answer means "unknown".

use vstd::prelude::*;
use crate::json::{JsonValue, json_eq, members_have_key, object_contains_key};
use crate::schema::{SchemaNode, SchemaNodeKind};
use crate::semantics::{accepts, dependencies_ok};
use crate::types::{trivially_universal, schema_is_trivially_universal, lemma_trivially_universal_accepts, may_have_type,
    obviously_accepts_type, possible_json_type_mask, whole_json_types_accepted_mask, lemma_type_facts_sound};
use crate::json::JSON_TYPE_OBJECT;
use crate::names::{name_set, distinct_names, rule_view, rule_set, closed_under, forced_names, member_names,
    names_contain, close_names, insert_name, lemma_name_set_push, lemma_forced_names_present};

verus! {

/// Whether a schema directly demands name `n` of the objects it accepts:
/// a `required` name, a name of a `const` object, or a name common to an
/// enumeration of objects; `allOf` demands what any conjunct demands.
pub open spec fn collects_name(s: SchemaNode, n: Seq<char>) -> bool
    decreases s,
{
    match s.kind {
        SchemaNodeKind::Object { required, .. } => name_set(required@).contains(n),
        SchemaNodeKind::Const(v) => match v {
            JsonValue::Object(members) => members_have_key(members@, n),
            _ => false,
        },
        SchemaNodeKind::Enum(values) => values@.len() > 0 && all_objects(values@) && common_names(values@).contains(n),
        SchemaNodeKind::AllOf(children) => exists|i: int| 0 <= i < children@.len() && collects_name(#[trigger] children@[i], n),
        _ => false,
    }
}

/// The names a schema directly demands (see `collects_name`).
pub open spec fn collected_names(s: SchemaNode) -> Set<Seq<char>> {
    Set::new(|n: Seq<char>| collects_name(s, n))
}

/// Whether every value is an object.
pub open spec fn all_objects(values: Seq<JsonValue>) -> bool {
    forall|i: int| 0 <= i < values.len() ==> (#[trigger] values[i]) is Object
}

/// The names every one of the (object) values carries.
pub open spec fn common_names(values: Seq<JsonValue>) -> Set<Seq<char>> {
    Set::new(|n: Seq<char>| forall|i: int| 0 <= i < values.len() ==> #[trigger] members_have_key(values[i]->Object_0@, n))
}

/// Whether `rv` is a `dependentRequired` rule of a schema or of one of its
/// `allOf` conjuncts.
pub open spec fn collects_rule(s: SchemaNode, rv: (Seq<char>, Seq<Seq<char>>)) -> bool
    decreases s,
{
    match s.kind {
        SchemaNodeKind::Object { dependent_required, .. } => rule_set(dependent_required@).contains(rv),
        SchemaNodeKind::AllOf(children) => exists|i: int| 0 <= i < children@.len() && collects_rule(#[trigger] children@[i], rv),
        _ => false,
    }
}

/// The rules a schema collects (see `collects_rule`).
pub open spec fn collected_rules(s: SchemaNode) -> Set<(Seq<char>, Seq<Seq<char>>)> {
    Set::new(|rv: (Seq<char>, Seq<Seq<char>>)| collects_rule(s, rv))
}

/// The names every object a schema accepts is known to carry: the
/// collected names closed under the collected rules.
pub open spec fn guaranteed_names(s: SchemaNode) -> Set<Seq<char>> {
    forced_names(collected_names(s), collected_rules(s))
}

/// A copy of a rule.
fn clone_rule(rule: &(String, Vec<String>)) -> (c: (String, Vec<String>))
    ensures
        rule_view(c) == rule_view(*rule),
{
    let mut deps: Vec<String> = Vec::new();
    let mut k: usize = 0;
    while k < rule.1.len()
        invariant
            k <= rule.1@.len(),
            deps@.len() == k,
            forall|m: int| 0 <= m < k ==> (#[trigger] deps@[m])@ == rule.1@[m]@,
        decreases rule.1@.len() - k,
    {
        deps.push(rule.1[k].clone());
        k = k + 1;
    }
    let c = (rule.0.clone(), deps);
    assert(c.1@.map_values(|d: String| d@) =~= rule.1@.map_values(|d: String| d@));
    c
}

/// Appends a rule to a list of rules.
fn push_rule(rules: &mut Vec<(String, Vec<String>)>, rule: (String, Vec<String>))
    ensures
        rule_set(final(rules)@) == rule_set(old(rules)@).insert(rule_view(rule)),
{
    let ghost before = rules@;
    rules.push(rule);
    proof {
        assert forall|rv: (Seq<char>, Seq<Seq<char>>)| rule_set(rules@).contains(rv) <==> rule_set(before).insert(rule_view(rule)).contains(rv) by {
            if rule_set(rules@).contains(rv) {
                let r = choose|r: int| 0 <= r < rules@.len() && rule_view(#[trigger] rules@[r]) == rv;
                if r < before.len() {
                    assert(rules@[r] == before[r]);
                }
            }
            if rule_set(before).contains(rv) {
                let r = choose|r: int| 0 <= r < before.len() && rule_view(#[trigger] before[r]) == rv;
                assert(rules@[r] == before[r]);
            }
            if rv == rule_view(rule) {
                assert(rules@[before.len() as int] == rule);
            }
        }
        assert(rule_set(rules@) =~= rule_set(before).insert(rule_view(rule)));
    }
}

/// The names all the values of an enumeration carry, when every value is an
/// object (see `collected_names`).
pub(crate) fn enum_common_names(values: &Vec<JsonValue>) -> (r: Vec<String>)
    ensures
        name_set(r@) == (if values@.len() > 0 && all_objects(values@) { common_names(values@) } else { Set::empty() }),
{
    let mut common: Vec<String> = Vec::new();
    if values.len() == 0 {
        assert(name_set(common@) =~= Set::empty());
        return common;
    }
    let first = match values[0].as_object() {
        Some(object) => object,
        None => {
            assert(!all_objects(values@));
            assert(name_set(common@) =~= Set::empty());
            return common;
        },
    };
    let mut i: usize = 0;
    while i < first.len()
        invariant
            i <= first@.len(),
            name_set(common@) == Set::new(|n: Seq<char>| exists|k: int| 0 <= k < i && (#[trigger] first@[k]).0@ == n),
        decreases first@.len() - i,
    {
        let ghost before = common@;
        common.push(first[i].0.clone());
        proof {
            lemma_name_set_push(before, first@[i as int].0);
            assert(name_set(common@) =~= Set::new(|n: Seq<char>| exists|k: int| 0 <= k < i + 1 && (#[trigger] first@[k]).0@ == n));
        }
        i = i + 1;
    }
    proof {
        assert forall|n: Seq<char>| name_set(common@).contains(n)
            <==> (forall|k: int| 0 <= k < 1 ==> #[trigger] members_have_key(values@[k]->Object_0@, n)) by {
            if forall|k: int| 0 <= k < 1 ==> #[trigger] members_have_key(values@[k]->Object_0@, n) {
                assert(members_have_key(values@[0]->Object_0@, n));
            }
        }
    }
    let mut j: usize = 1;
    while j < values.len()
        invariant
            1 <= j <= values@.len(),
            forall|k: int| 0 <= k < j ==> (#[trigger] values@[k]) is Object,
            forall|n: Seq<char>| name_set(common@).contains(n)
                <==> (forall|k: int| 0 <= k < j ==> #[trigger] members_have_key(values@[k]->Object_0@, n)),
        decreases values@.len() - j,
    {
        match values[j].as_object() {
            Some(object) => {
                let mut kept: Vec<String> = Vec::new();
                let mut m: usize = 0;
                while m < common.len()
                    invariant
                        m <= common@.len(),
                        name_set(kept@) == name_set(common@.take(m as int)).intersect(member_names(object@)),
                    decreases common@.len() - m,
                {
                    let ghost before = kept@;
                    proof { crate::names::lemma_name_set_take(common@, m as int); }
                    if object_contains_key(object, common[m].as_str()) {
                        kept.push(common[m].clone());
                        proof { lemma_name_set_push(before, common@[m as int]); }
                    }
                    assert(name_set(kept@) =~= name_set(common@.take(m + 1)).intersect(member_names(object@)));
                    m = m + 1;
                }
                proof {
                    assert(common@.take(common@.len() as int) =~= common@);
                    assert forall|n: Seq<char>| name_set(kept@).contains(n)
                        <==> (forall|k: int| 0 <= k < j + 1 ==> #[trigger] members_have_key(values@[k]->Object_0@, n)) by {
                        if forall|k: int| 0 <= k < j + 1 ==> #[trigger] members_have_key(values@[k]->Object_0@, n) {
                            assert(forall|k: int| 0 <= k < j ==> #[trigger] members_have_key(values@[k]->Object_0@, n));
                            assert(members_have_key(values@[j as int]->Object_0@, n));
                        }
                    }
                }
                common = kept;
            },
            None => {
                assert(!all_objects(values@));
                let empty: Vec<String> = Vec::new();
                assert(name_set(empty@) =~= Set::empty());
                return empty;
            },
        }
        j = j + 1;
    }
    proof {
        assert(all_objects(values@));
        assert(name_set(common@) =~= common_names(values@));
    }
    common
}

/// Pushing a rule adds its view to the set.
proof fn lemma_rule_set_push(v: Seq<(String, Vec<String>)>, x: (String, Vec<String>))
    ensures
        rule_set(v.push(x)) == rule_set(v).insert(rule_view(x)),
{
    assert forall|rv: (Seq<char>, Seq<Seq<char>>)| rule_set(v.push(x)).contains(rv) <==> rule_set(v).insert(rule_view(x)).contains(rv) by {
        if rule_set(v.push(x)).contains(rv) {
            let r = choose|r: int| 0 <= r < v.push(x).len() && rule_view(#[trigger] v.push(x)[r]) == rv;
            if r < v.len() {
                assert(v.push(x)[r] == v[r]);
            }
        }
        if rule_set(v).contains(rv) {
            let r = choose|r: int| 0 <= r < v.len() && rule_view(#[trigger] v[r]) == rv;
            assert(v.push(x)[r] == v[r]);
        }
        if rv == rule_view(x) {
            assert(v.push(x)[v.len() as int] == x);
        }
    }
    assert(rule_set(v.push(x)) =~= rule_set(v).insert(rule_view(x)));
}

/// Adds the names `schema` directly demands to `names`, and its rules to
/// `rules` (see `collected_names`, `collected_rules`).
fn collect_guaranteed(schema: &SchemaNode, names: &mut Vec<String>, rules: &mut Vec<(String, Vec<String>)>)
    requires
        distinct_names(old(names)@),
    ensures
        distinct_names(final(names)@),
        name_set(final(names)@) == name_set(old(names)@).union(collected_names(*schema)),
        rule_set(final(rules)@) == rule_set(old(rules)@).union(collected_rules(*schema)),
    decreases *schema,
{
    let ghost n0 = name_set(names@);
    let ghost r0 = rule_set(rules@);
    match &schema.kind {
        SchemaNodeKind::Object { required, dependent_required, .. } => {
            let mut i: usize = 0;
            while i < required.len()
                invariant
                    i <= required@.len(),
                    distinct_names(names@),
                    name_set(names@) == n0.union(name_set(required@.take(i as int))),
                decreases required@.len() - i,
            {
                proof { crate::names::lemma_name_set_take(required@, i as int); }
                insert_name(names, required[i].as_str());
                assert(name_set(names@) =~= n0.union(name_set(required@.take(i + 1))));
                i = i + 1;
            }
            proof { assert(required@.take(required@.len() as int) =~= required@); }
            let mut d: usize = 0;
            while d < dependent_required.len()
                invariant
                    d <= dependent_required@.len(),
                    rule_set(rules@) == r0.union(rule_set(dependent_required@.take(d as int))),
                decreases dependent_required@.len() - d,
            {
                let rule = clone_rule(&dependent_required[d]);
                push_rule(rules, rule);
                proof {
                    assert(dependent_required@.take(d + 1) =~= dependent_required@.take(d as int).push(dependent_required@[d as int]));
                    lemma_rule_set_push(dependent_required@.take(d as int), dependent_required@[d as int]);
                }
                assert(rule_set(rules@) =~= r0.union(rule_set(dependent_required@.take(d + 1))));
                d = d + 1;
            }
            proof { assert(dependent_required@.take(dependent_required@.len() as int) =~= dependent_required@); }
        },
        SchemaNodeKind::Const(value) => {
            match value.as_object() {
                Some(members) => {
                    let mut i: usize = 0;
                    while i < members.len()
                        invariant
                            i <= members@.len(),
                            distinct_names(names@),
                            name_set(names@) == n0.union(Set::new(|n: Seq<char>| exists|k: int| 0 <= k < i && (#[trigger] members@[k]).0@ == n)),
                        decreases members@.len() - i,
                    {
                        insert_name(names, members[i].0.as_str());
                        assert(name_set(names@) =~= n0.union(Set::new(|n: Seq<char>| exists|k: int| 0 <= k < i + 1 && (#[trigger] members@[k]).0@ == n)));
                        i = i + 1;
                    }
                    assert(name_set(names@) =~= n0.union(collected_names(*schema)));
                },
                None => {
                    assert(name_set(names@) =~= n0.union(collected_names(*schema)));
                },
            }
            assert(rule_set(rules@) =~= r0.union(collected_rules(*schema)));
        },
        SchemaNodeKind::Enum(values) => {
            let common = enum_common_names(values);
            let mut i: usize = 0;
            while i < common.len()
                invariant
                    i <= common@.len(),
                    distinct_names(names@),
                    name_set(names@) == n0.union(name_set(common@.take(i as int))),
                decreases common@.len() - i,
            {
                proof { crate::names::lemma_name_set_take(common@, i as int); }
                insert_name(names, common[i].as_str());
                assert(name_set(names@) =~= n0.union(name_set(common@.take(i + 1))));
                i = i + 1;
            }
            proof { assert(common@.take(common@.len() as int) =~= common@); }
            assert(name_set(names@) =~= n0.union(collected_names(*schema)));
            assert(rule_set(rules@) =~= r0.union(collected_rules(*schema)));
        },
        SchemaNodeKind::AllOf(children) => {
            let mut i: usize = 0;
            while i < children.len()
                invariant
                    i <= children@.len(),
                    schema.kind == SchemaNodeKind::AllOf(*children),
                    distinct_names(names@),
                    name_set(names@) == n0.union(Set::new(|n: Seq<char>| exists|k: int| 0 <= k < i
                        && collects_name(#[trigger] children@[k], n))),
                    rule_set(rules@) == r0.union(Set::new(|rv: (Seq<char>, Seq<Seq<char>>)| exists|k: int| 0 <= k < i
                        && collects_rule(#[trigger] children@[k], rv))),
                decreases children@.len() - i,
            {
                proof {
                    assert(decreases_to!(*schema => schema.kind));
                    assert(decreases_to!(schema.kind => schema.kind->AllOf_0));
                    assert(decreases_to!(*children => children[i as int]));
                }
                collect_guaranteed(&children[i], names, rules);
                assert(name_set(names@) =~= n0.union(Set::new(|n: Seq<char>| exists|k: int| 0 <= k < i + 1
                    && collects_name(#[trigger] children@[k], n))));
                assert(rule_set(rules@) =~= r0.union(Set::new(|rv: (Seq<char>, Seq<Seq<char>>)| exists|k: int| 0 <= k < i + 1
                    && collects_rule(#[trigger] children@[k], rv))));
                i = i + 1;
            }
            proof {
                assert(schema.kind->AllOf_0 == *children);
                assert forall|n: Seq<char>| collected_names(*schema).contains(n)
                    <==> (exists|k: int| 0 <= k < children@.len() && collects_name(#[trigger] children@[k], n)) by {
                    if exists|k: int| 0 <= k < children@.len() && collects_name(#[trigger] children@[k], n) {
                        let k = choose|k: int| 0 <= k < children@.len() && collects_name(#[trigger] children@[k], n);
                        assert(collects_name(schema.kind->AllOf_0@[k], n));
                    }
                }
                assert forall|rv: (Seq<char>, Seq<Seq<char>>)| collected_rules(*schema).contains(rv)
                    <==> (exists|k: int| 0 <= k < children@.len() && collects_rule(#[trigger] children@[k], rv)) by {
                    if exists|k: int| 0 <= k < children@.len() && collects_rule(#[trigger] children@[k], rv) {
                        let k = choose|k: int| 0 <= k < children@.len() && collects_rule(#[trigger] children@[k], rv);
                        assert(collects_rule(schema.kind->AllOf_0@[k], rv));
                    }
                }
                assert(name_set(names@) =~= n0.union(collected_names(*schema)));
                assert(rule_set(rules@) =~= r0.union(collected_rules(*schema)));
            }
        },
        _ => {
            assert(name_set(names@) =~= n0.union(collected_names(*schema)));
            assert(rule_set(rules@) =~= r0.union(collected_rules(*schema)));
        },
    }
}

/// The names every object `schema` accepts is known to carry (see
/// `guaranteed_names`), without repeats.
pub fn guaranteed_property_name_closure(schema: &SchemaNode) -> (r: Vec<String>)
    ensures
        distinct_names(r@),
        name_set(r@) == guaranteed_names(*schema),
{
    let mut names: Vec<String> = Vec::new();
    let mut rules: Vec<(String, Vec<String>)> = Vec::new();
    proof {
        assert(name_set(names@) =~= Set::empty());
        assert(rule_set(rules@) =~= Set::empty());
    }
    collect_guaranteed(schema, &mut names, &mut rules);
    proof {
        assert(name_set(names@) =~= collected_names(*schema));
        assert(rule_set(rules@) =~= collected_rules(*schema));
    }
    close_names(&mut names, &rules);
    names
}

/// What a schema directly demands holds of every object it accepts: the
/// object carries the collected names and satisfies the collected rules.
proof fn lemma_collected_sound(s: SchemaNode, v: JsonValue, rx: spec_fn(Seq<char>, Seq<char>) -> bool)
    requires
        accepts(s, v, rx),
        v is Object,
    ensures
        collected_names(s).subset_of(member_names(v->Object_0@)),
        closed_under(member_names(v->Object_0@), collected_rules(s)),
    decreases s,
{
    let members = v->Object_0@;
    match s.kind {
        SchemaNodeKind::Object { required, dependent_required, .. } => {
            assert forall|n: Seq<char>| collected_names(s).contains(n) implies #[trigger] member_names(members).contains(n) by {
                let r = choose|r: int| 0 <= r < required@.len() && (#[trigger] required@[r])@ == n;
                assert(members_have_key(members, required@[r]@));
            }
            assert forall|rv: (Seq<char>, Seq<Seq<char>>), k: int| #[trigger] collected_rules(s).contains(rv)
                && member_names(members).contains(rv.0) && 0 <= k < rv.1.len()
                implies #[trigger] member_names(members).contains(rv.1[k]) by {
                assert(collects_rule(s, rv));
                let d = choose|d: int| 0 <= d < dependent_required@.len() && rule_view(#[trigger] dependent_required@[d]) == rv;
                assert(dependencies_ok(dependent_required@, members));
                assert(members_have_key(members, dependent_required@[d].0@));
                assert(rv.1[k] == dependent_required@[d].1@[k]@);
                assert(members_have_key(members, dependent_required@[d].1@[k]@));
            }
        },
        SchemaNodeKind::Const(c) => {
            assert(json_eq(v, c));
            assert forall|n: Seq<char>| collected_names(s).contains(n) implies #[trigger] member_names(members).contains(n) by {
                let ys = c->Object_0@;
                let j = choose|j: int| 0 <= j < ys.len() && (#[trigger] ys[j]).0@ == n;
                assert(members_have_key(members, ys[j].0@));
            }
        },
        SchemaNodeKind::Enum(values) => {
            if values@.len() > 0 && all_objects(values@) {
                let i = choose|i: int| 0 <= i < values@.len() && json_eq(v, #[trigger] values@[i]);
                assert(values@[i] is Object);
                assert forall|n: Seq<char>| collected_names(s).contains(n) implies #[trigger] member_names(members).contains(n) by {
                    assert(common_names(values@).contains(n));
                    assert(members_have_key(values@[i]->Object_0@, n));
                    let ys = values@[i]->Object_0@;
                    let j = choose|j: int| 0 <= j < ys.len() && (#[trigger] ys[j]).0@ == n;
                    assert(members_have_key(members, ys[j].0@));
                }
            }
        },
        SchemaNodeKind::AllOf(children) => {
            assert(s.kind->AllOf_0 == children);
            assert forall|i: int| 0 <= i < children@.len() implies
                collected_names(#[trigger] children@[i]).subset_of(member_names(members))
                && closed_under(member_names(members), collected_rules(children@[i])) by {
                assert(accepts(children@[i], v, rx));
                lemma_collected_sound(children@[i], v, rx);
            }
            assert forall|n: Seq<char>| collected_names(s).contains(n) implies #[trigger] member_names(members).contains(n) by {
                let i = choose|i: int| 0 <= i < children@.len() && collects_name(#[trigger] children@[i], n);
                assert(collected_names(children@[i]).contains(n));
            }
            assert forall|rv: (Seq<char>, Seq<Seq<char>>), k: int| #[trigger] collected_rules(s).contains(rv)
                && member_names(members).contains(rv.0) && 0 <= k < rv.1.len()
                implies #[trigger] member_names(members).contains(rv.1[k]) by {
                let i = choose|i: int| 0 <= i < children@.len() && collects_rule(#[trigger] children@[i], rv);
                assert(collected_rules(children@[i]).contains(rv));
                assert(closed_under(member_names(members), collected_rules(children@[i])));
            }
        },
        _ => {},
    }
}

/// Law: every object a schema accepts carries every name the schema
/// guarantees.
pub proof fn lemma_guaranteed_names_present(s: SchemaNode, v: JsonValue, rx: spec_fn(Seq<char>, Seq<char>) -> bool)
    requires
        accepts(s, v, rx),
        v is Object,
    ensures
        guaranteed_names(s).subset_of(member_names(v->Object_0@)),
{
    lemma_collected_sound(s, v, rx);
    lemma_forced_names_present(v->Object_0@, collected_names(s), collected_rules(s));
}

/// A schema that directly demands a name accepts only objects.
proof fn lemma_collects_name_object(s: SchemaNode, n: Seq<char>, v: JsonValue, rx: spec_fn(Seq<char>, Seq<char>) -> bool)
    requires
        collects_name(s, n),
        accepts(s, v, rx),
    ensures
        v is Object,
    decreases s,
{
    match s.kind {
        SchemaNodeKind::Const(c) => {
            assert(json_eq(v, c));
        },
        SchemaNodeKind::Enum(values) => {
            let i = choose|i: int| 0 <= i < values@.len() && json_eq(v, #[trigger] values@[i]);
            assert(values@[i] is Object);
        },
        SchemaNodeKind::AllOf(children) => {
            let i = choose|i: int| 0 <= i < children@.len() && collects_name(#[trigger] children@[i], n);
            assert(accepts(children@[i], v, rx));
            lemma_collects_name_object(children@[i], n, v, rx);
        },
        _ => {},
    }
}

/// A guaranteed name is guaranteed of objects only: a schema guaranteeing
/// some name accepts only objects, which carry it.
proof fn lemma_guaranteed_name_object(s: SchemaNode, n: Seq<char>, v: JsonValue, rx: spec_fn(Seq<char>, Seq<char>) -> bool)
    requires
        guaranteed_names(s).contains(n),
        accepts(s, v, rx),
    ensures
        v is Object,
        members_have_key(v->Object_0@, n),
{
    let seeds = collected_names(s);
    let rules = collected_rules(s);
    if seeds =~= Set::empty() {
        assert(closed_under(Set::empty(), rules));
        assert(Set::<Seq<char>>::empty().contains(n));
    }
    let m = choose|m: Seq<char>| seeds.contains(m);
    lemma_collects_name_object(s, m, v, rx);
    lemma_guaranteed_names_present(s, v, rx);
    assert(member_names(v->Object_0@).contains(n));
}

/// The shape-level part of `schema_guarantees_property_name`: `false`, a
/// required name, a `const`/`enum` of objects with the name, an `allOf`
/// with a guaranteeing conjunct, a union whose branches all guarantee, or a
/// conditional whose two branches guarantee.
pub open spec fn guarantees_name(s: SchemaNode, name: Seq<char>) -> bool
    decreases s,
{
    match s.kind {
        SchemaNodeKind::BoolSchema(b) => !b,
        SchemaNodeKind::Object { required, .. } => name_set(required@).contains(name) || guaranteed_names(s).contains(name),
        SchemaNodeKind::Const(v) => match v {
            JsonValue::Object(members) => members_have_key(members@, name),
            _ => false,
        },
        SchemaNodeKind::Enum(values) => values@.len() > 0 && forall|i: int| 0 <= i < values@.len()
            ==> (#[trigger] values@[i]) is Object && members_have_key(values@[i]->Object_0@, name),
        SchemaNodeKind::AllOf(children) => guaranteed_names(s).contains(name)
            || exists|i: int| 0 <= i < children@.len() && guarantees_name(#[trigger] children@[i], name),
        SchemaNodeKind::AnyOf(children) => children@.len() > 0
            && forall|i: int| 0 <= i < children@.len() ==> guarantees_name(#[trigger] children@[i], name),
        SchemaNodeKind::OneOf(children) => children@.len() > 0
            && forall|i: int| 0 <= i < children@.len() ==> guarantees_name(#[trigger] children@[i], name),
        SchemaNodeKind::IfThenElse { then_schema, else_schema, .. } => match (then_schema, else_schema) {
            (Some(t), Some(e)) => guarantees_name(*t, name) && guarantees_name(*e, name),
            _ => false,
        },
        _ => false,
    }
}

/// The test `schema_guarantees_property_name` performs.
pub open spec fn schema_guarantees_name(s: SchemaNode, name: Seq<char>) -> bool {
    guaranteed_names(s).contains(name) || guarantees_name(s, name)
}

/// The shape-level guarantee of `name` (see `guarantees_name`).
fn guarantees_name_exec(schema: &SchemaNode, name: &str) -> (r: bool)
    ensures
        r == guarantees_name(*schema, name@),
    decreases *schema,
{
    match &schema.kind {
        SchemaNodeKind::BoolSchema(b) => !*b,
        SchemaNodeKind::Object { required, .. } => {
            names_contain(required, name) || names_contain(&guaranteed_property_name_closure(schema), name)
        },
        SchemaNodeKind::Const(value) => match value.as_object() {
            Some(object) => object_contains_key(object, name),
            None => false,
        },
        SchemaNodeKind::Enum(values) => {
            if values.len() == 0 {
                return false;
            }
            let mut i: usize = 0;
            while i < values.len()
                invariant
                    i <= values@.len(),
                    schema.kind == SchemaNodeKind::Enum(*values),
                    forall|k: int| 0 <= k < i ==> (#[trigger] values@[k]) is Object && members_have_key(values@[k]->Object_0@, name@),
                decreases values@.len() - i,
            {
                match values[i].as_object() {
                    Some(object) => {
                        if !object_contains_key(object, name) {
                            assert(schema.kind->Enum_0@[i as int] == values@[i as int]);
                            return false;
                        }
                    },
                    None => {
                        assert(schema.kind->Enum_0@[i as int] == values@[i as int]);
                        return false;
                    },
                }
                i = i + 1;
            }
            true
        },
        SchemaNodeKind::AllOf(children) => {
            if names_contain(&guaranteed_property_name_closure(schema), name) {
                return true;
            }
            let mut i: usize = 0;
            while i < children.len()
                invariant
                    i <= children@.len(),
                    schema.kind == SchemaNodeKind::AllOf(*children),
                    forall|k: int| 0 <= k < i ==> !guarantees_name(#[trigger] children@[k], name@),
                decreases children@.len() - i,
            {
                proof {
                    assert(decreases_to!(*schema => schema.kind));
                    assert(decreases_to!(schema.kind => schema.kind->AllOf_0));
                    assert(decreases_to!(*children => children[i as int]));
                }
                if guarantees_name_exec(&children[i], name) {
                    assert(schema.kind->AllOf_0 == *children);
                    return true;
                }
                i = i + 1;
            }
            false
        },
        SchemaNodeKind::AnyOf(children) => {
            if children.len() == 0 {
                return false;
            }
            let mut i: usize = 0;
            while i < children.len()
                invariant
                    i <= children@.len(),
                    schema.kind == SchemaNodeKind::AnyOf(*children),
                    forall|k: int| 0 <= k < i ==> guarantees_name(#[trigger] children@[k], name@),
                decreases children@.len() - i,
            {
                proof {
                    assert(decreases_to!(*schema => schema.kind));
                    assert(decreases_to!(schema.kind => schema.kind->AnyOf_0));
                    assert(decreases_to!(*children => children[i as int]));
                }
                if !guarantees_name_exec(&children[i], name) {
                    assert(schema.kind->AnyOf_0 == *children);
                    return false;
                }
                i = i + 1;
            }
            true
        },
        SchemaNodeKind::OneOf(children) => {
            if children.len() == 0 {
                return false;
            }
            let mut i: usize = 0;
            while i < children.len()
                invariant
                    i <= children@.len(),
                    schema.kind == SchemaNodeKind::OneOf(*children),
                    forall|k: int| 0 <= k < i ==> guarantees_name(#[trigger] children@[k], name@),
                decreases children@.len() - i,
            {
                proof {
                    assert(decreases_to!(*schema => schema.kind));
                    assert(decreases_to!(schema.kind => schema.kind->OneOf_0));
                    assert(decreases_to!(*children => children[i as int]));
                }
                if !guarantees_name_exec(&children[i], name) {
                    assert(schema.kind->OneOf_0 == *children);
                    return false;
                }
                i = i + 1;
            }
            true
        },
        SchemaNodeKind::IfThenElse { then_schema, else_schema, .. } => match (then_schema, else_schema) {
            (Some(t), Some(e)) => guarantees_name_exec(t, name) && guarantees_name_exec(e, name),
            _ => false,
        },
        _ => false,
    }
}

/// The shape-level guarantee is sound: every value the schema accepts is an
/// object carrying the name.
proof fn lemma_guarantees_name_sound(s: SchemaNode, name: Seq<char>, v: JsonValue, rx: spec_fn(Seq<char>, Seq<char>) -> bool)
    requires
        guarantees_name(s, name),
        accepts(s, v, rx),
    ensures
        v is Object,
        members_have_key(v->Object_0@, name),
    decreases s,
{
    match s.kind {
        SchemaNodeKind::Object { required, .. } => {
            if name_set(required@).contains(name) {
                let r = choose|r: int| 0 <= r < required@.len() && (#[trigger] required@[r])@ == name;
                assert(members_have_key(v->Object_0@, required@[r]@));
            } else {
                lemma_guaranteed_name_object(s, name, v, rx);
            }
        },
        SchemaNodeKind::Const(c) => {
            assert(json_eq(v, c));
            let ys = c->Object_0@;
            let j = choose|j: int| 0 <= j < ys.len() && (#[trigger] ys[j]).0@ == name;
            assert(members_have_key(v->Object_0@, ys[j].0@));
        },
        SchemaNodeKind::Enum(values) => {
            let i = choose|i: int| 0 <= i < values@.len() && json_eq(v, #[trigger] values@[i]);
            assert(values@[i] is Object && members_have_key(values@[i]->Object_0@, name));
            let ys = values@[i]->Object_0@;
            let j = choose|j: int| 0 <= j < ys.len() && (#[trigger] ys[j]).0@ == name;
            assert(members_have_key(v->Object_0@, ys[j].0@));
        },
        SchemaNodeKind::AllOf(children) => {
            if guaranteed_names(s).contains(name) {
                lemma_guaranteed_name_object(s, name, v, rx);
            } else {
                let i = choose|i: int| 0 <= i < children@.len() && guarantees_name(#[trigger] children@[i], name);
                assert(accepts(children@[i], v, rx));
                lemma_guarantees_name_sound(children@[i], name, v, rx);
            }
        },
        SchemaNodeKind::AnyOf(children) => {
            let i = choose|i: int| 0 <= i < children@.len() && accepts(#[trigger] children@[i], v, rx);
            lemma_guarantees_name_sound(children@[i], name, v, rx);
        },
        SchemaNodeKind::OneOf(children) => {
            let i = choose|i: int| 0 <= i < children@.len() && accepts(#[trigger] children@[i], v, rx)
                && forall|j: int| 0 <= j < children@.len() && j != i ==> !accepts(#[trigger] children@[j], v, rx);
            lemma_guarantees_name_sound(children@[i], name, v, rx);
        },
        SchemaNodeKind::IfThenElse { if_schema, then_schema, else_schema } => {
            let t = then_schema->0;
            let e = else_schema->0;
            if accepts(*if_schema, v, rx) {
                lemma_guarantees_name_sound(*t, name, v, rx);
            } else {
                lemma_guarantees_name_sound(*e, name, v, rx);
            }
        },
        _ => {},
    }
}

/// Whether every value `schema` accepts is known to be an object carrying
/// property `name`: the name is guaranteed by the schema's required names
/// and rules, or by its shape (see `guarantees_name`).
pub fn schema_guarantees_property_name(schema: &SchemaNode, name: &str) -> (r: bool)
    ensures
        r == schema_guarantees_name(*schema, name@),
        r ==> forall|v: JsonValue, rx: spec_fn(Seq<char>, Seq<char>) -> bool| #[trigger] accepts(*schema, v, rx)
            ==> v is Object && members_have_key(v->Object_0@, name@),
{
    let r = names_contain(&guaranteed_property_name_closure(schema), name) || guarantees_name_exec(schema, name);
    proof {
        assert forall|v: JsonValue, rx: spec_fn(Seq<char>, Seq<char>) -> bool| r && #[trigger] accepts(*schema, v, rx)
            implies v is Object && members_have_key(v->Object_0@, name@) by {
            if guaranteed_names(*schema).contains(name@) {
                lemma_guaranteed_name_object(*schema, name@, v, rx);
            } else {
                lemma_guarantees_name_sound(*schema, name@, v, rx);
            }
        }
    }
    r
}

/// The object-scoped guarantee of `name`: like `guarantees_name`, but only
/// about the object instances (`true` vacuously for schemas that accept no
/// object), with unions looking only at branches that may accept objects
/// and conditionals with one branch when the condition decides objects.
pub open spec fn guarantees_name_for_objects(s: SchemaNode, name: Seq<char>) -> bool
    decreases s,
{
    match s.kind {
        SchemaNodeKind::BoolSchema(b) => !b,
        SchemaNodeKind::Object { required, .. } => name_set(required@).contains(name) || guaranteed_names(s).contains(name),
        SchemaNodeKind::Const(v) => match v {
            JsonValue::Object(members) => members_have_key(members@, name),
            _ => true,
        },
        SchemaNodeKind::Enum(values) => forall|i: int| 0 <= i < values@.len() && (#[trigger] values@[i]) is Object
            ==> members_have_key(values@[i]->Object_0@, name),
        SchemaNodeKind::AllOf(children) => exists|i: int| 0 <= i < children@.len()
            && guarantees_name_for_objects(#[trigger] children@[i], name),
        SchemaNodeKind::AnyOf(children) => forall|i: int| 0 <= i < children@.len()
            && may_have_type(#[trigger] children@[i], JSON_TYPE_OBJECT) ==> guarantees_name_for_objects(children@[i], name),
        SchemaNodeKind::OneOf(children) => forall|i: int| 0 <= i < children@.len()
            && may_have_type(#[trigger] children@[i], JSON_TYPE_OBJECT) ==> guarantees_name_for_objects(children@[i], name),
        SchemaNodeKind::IfThenElse { if_schema, then_schema, else_schema } => match (then_schema, else_schema) {
            (Some(t), Some(e)) => guarantees_name_for_objects(*t, name) && guarantees_name_for_objects(*e, name),
            (Some(t), None) => obviously_accepts_type(*if_schema, JSON_TYPE_OBJECT) && guarantees_name_for_objects(*t, name),
            (None, Some(e)) => !may_have_type(*if_schema, JSON_TYPE_OBJECT) && guarantees_name_for_objects(*e, name),
            (None, None) => false,
        },
        _ => false,
    }
}

/// The object-scoped guarantee (see `guarantees_name_for_objects`).
fn guarantees_name_for_objects_exec(schema: &SchemaNode, name: &str) -> (r: bool)
    ensures
        r == guarantees_name_for_objects(*schema, name@),
    decreases *schema,
{
    match &schema.kind {
        SchemaNodeKind::BoolSchema(b) => !*b,
        SchemaNodeKind::Object { required, .. } => {
            names_contain(required, name) || names_contain(&guaranteed_property_name_closure(schema), name)
        },
        SchemaNodeKind::Const(value) => match value.as_object() {
            Some(object) => object_contains_key(object, name),
            None => true,
        },
        SchemaNodeKind::Enum(values) => {
            let mut i: usize = 0;
            while i < values.len()
                invariant
                    i <= values@.len(),
                    schema.kind == SchemaNodeKind::Enum(*values),
                    forall|k: int| 0 <= k < i && (#[trigger] values@[k]) is Object ==> members_have_key(values@[k]->Object_0@, name@),
                decreases values@.len() - i,
            {
                match values[i].as_object() {
                    Some(object) => {
                        if !object_contains_key(object, name) {
                            assert(schema.kind->Enum_0@[i as int] == values@[i as int]);
                            return false;
                        }
                    },
                    None => {},
                }
                i = i + 1;
            }
            true
        },
        SchemaNodeKind::AllOf(children) => {
            let mut i: usize = 0;
            while i < children.len()
                invariant
                    i <= children@.len(),
                    schema.kind == SchemaNodeKind::AllOf(*children),
                    forall|k: int| 0 <= k < i ==> !guarantees_name_for_objects(#[trigger] children@[k], name@),
                decreases children@.len() - i,
            {
                proof {
                    assert(decreases_to!(*schema => schema.kind));
                    assert(decreases_to!(schema.kind => schema.kind->AllOf_0));
                    assert(decreases_to!(*children => children[i as int]));
                }
                if guarantees_name_for_objects_exec(&children[i], name) {
                    assert(schema.kind->AllOf_0 == *children);
                    return true;
                }
                i = i + 1;
            }
            false
        },
        SchemaNodeKind::AnyOf(children) => object_branches_guarantee(schema, children, name),
        SchemaNodeKind::OneOf(children) => object_branches_guarantee(schema, children, name),
        SchemaNodeKind::IfThenElse { if_schema, then_schema, else_schema } => match (then_schema, else_schema) {
            (Some(t), Some(e)) => guarantees_name_for_objects_exec(t, name) && guarantees_name_for_objects_exec(e, name),
            (Some(t), None) => {
                let whole = whole_json_types_accepted_mask(if_schema);
                proof { crate::bits::lemma_single_bits(JSON_TYPE_OBJECT, JSON_TYPE_OBJECT); }
                whole & JSON_TYPE_OBJECT != 0 && guarantees_name_for_objects_exec(t, name)
            },
            (None, Some(e)) => {
                let possible = possible_json_type_mask(if_schema);
                proof { crate::bits::lemma_single_bits(JSON_TYPE_OBJECT, JSON_TYPE_OBJECT); }
                possible & JSON_TYPE_OBJECT == 0 && guarantees_name_for_objects_exec(e, name)
            },
            (None, None) => false,
        },
        _ => false,
    }
}

/// Whether every branch of the union `schema` that may accept objects
/// guarantees `name` for objects.
fn object_branches_guarantee(schema: &SchemaNode, children: &Vec<SchemaNode>, name: &str) -> (r: bool)
    requires
        schema.kind == SchemaNodeKind::AnyOf(*children) || schema.kind == SchemaNodeKind::OneOf(*children),
    ensures
        r == forall|i: int| 0 <= i < children@.len() && may_have_type(#[trigger] children@[i], JSON_TYPE_OBJECT)
            ==> guarantees_name_for_objects(children@[i], name@),
    decreases *schema, 0nat,
{
    let mut i: usize = 0;
    while i < children.len()
        invariant
            i <= children@.len(),
            schema.kind == SchemaNodeKind::AnyOf(*children) || schema.kind == SchemaNodeKind::OneOf(*children),
            forall|k: int| 0 <= k < i && may_have_type(#[trigger] children@[k], JSON_TYPE_OBJECT)
                ==> guarantees_name_for_objects(children@[k], name@),
        decreases children@.len() - i,
    {
        proof {
            assert(decreases_to!(*schema => schema.kind));
            if schema.kind is AnyOf {
                assert(decreases_to!(schema.kind => schema.kind->AnyOf_0));
            } else {
                assert(decreases_to!(schema.kind => schema.kind->OneOf_0));
            }
            assert(decreases_to!(*children => children[i as int]));
        }
        let possible = possible_json_type_mask(&children[i]);
        proof { crate::bits::lemma_single_bits(JSON_TYPE_OBJECT, JSON_TYPE_OBJECT); }
        if possible & JSON_TYPE_OBJECT != 0 {
            if !guarantees_name_for_objects_exec(&children[i], name) {
                return false;
            }
        }
        i = i + 1;
    }
    true
}

/// The object-scoped guarantee is sound: every object the schema accepts
/// carries the name.
proof fn lemma_guarantees_name_for_objects_sound(s: SchemaNode, name: Seq<char>, v: JsonValue, rx: spec_fn(Seq<char>, Seq<char>) -> bool)
    requires
        guarantees_name_for_objects(s, name),
        accepts(s, v, rx),
        v is Object,
    ensures
        members_have_key(v->Object_0@, name),
    decreases s,
{
    match s.kind {
        SchemaNodeKind::Object { required, .. } => {
            if name_set(required@).contains(name) {
                let r = choose|r: int| 0 <= r < required@.len() && (#[trigger] required@[r])@ == name;
                assert(members_have_key(v->Object_0@, required@[r]@));
            } else {
                lemma_guaranteed_name_object(s, name, v, rx);
            }
        },
        SchemaNodeKind::Const(c) => {
            assert(json_eq(v, c));
            let ys = c->Object_0@;
            let j = choose|j: int| 0 <= j < ys.len() && (#[trigger] ys[j]).0@ == name;
            assert(members_have_key(v->Object_0@, ys[j].0@));
        },
        SchemaNodeKind::Enum(values) => {
            let i = choose|i: int| 0 <= i < values@.len() && json_eq(v, #[trigger] values@[i]);
            assert(values@[i] is Object);
            let ys = values@[i]->Object_0@;
            let j = choose|j: int| 0 <= j < ys.len() && (#[trigger] ys[j]).0@ == name;
            assert(members_have_key(v->Object_0@, ys[j].0@));
        },
        SchemaNodeKind::AllOf(children) => {
            let i = choose|i: int| 0 <= i < children@.len() && guarantees_name_for_objects(#[trigger] children@[i], name);
            assert(accepts(children@[i], v, rx));
            lemma_guarantees_name_for_objects_sound(children@[i], name, v, rx);
        },
        SchemaNodeKind::AnyOf(children) => {
            let i = choose|i: int| 0 <= i < children@.len() && accepts(#[trigger] children@[i], v, rx);
            lemma_type_facts_sound(children@[i], v, rx);
            lemma_guarantees_name_for_objects_sound(children@[i], name, v, rx);
        },
        SchemaNodeKind::OneOf(children) => {
            let i = choose|i: int| 0 <= i < children@.len() && accepts(#[trigger] children@[i], v, rx)
                && forall|j: int| 0 <= j < children@.len() && j != i ==> !accepts(#[trigger] children@[j], v, rx);
            lemma_type_facts_sound(children@[i], v, rx);
            lemma_guarantees_name_for_objects_sound(children@[i], name, v, rx);
        },
        SchemaNodeKind::IfThenElse { if_schema, then_schema, else_schema } => {
            lemma_type_facts_sound(*if_schema, v, rx);
            match (then_schema, else_schema) {
                (Some(t), Some(e)) => {
                    if accepts(*if_schema, v, rx) {
                        lemma_guarantees_name_for_objects_sound(*t, name, v, rx);
                    } else {
                        lemma_guarantees_name_for_objects_sound(*e, name, v, rx);
                    }
                },
                (Some(t), None) => {
                    lemma_guarantees_name_for_objects_sound(*t, name, v, rx);
                },
                (None, Some(e)) => {
                    lemma_guarantees_name_for_objects_sound(*e, name, v, rx);
                },
                (None, None) => {},
            }
        },
        _ => {},
    }
}

/// Whether every object `schema` accepts is known to carry property `name`
/// (only about objects: the schema may accept other values too).
pub fn schema_guarantees_property_name_for_objects(schema: &SchemaNode, name: &str) -> (r: bool)
    ensures
        r == (schema_guarantees_name(*schema, name@) || guarantees_name_for_objects(*schema, name@)),
        r ==> forall|v: JsonValue, rx: spec_fn(Seq<char>, Seq<char>) -> bool| #[trigger] accepts(*schema, v, rx) && v is Object
            ==> members_have_key(v->Object_0@, name@),
{
    let r = schema_guarantees_property_name(schema, name) || guarantees_name_for_objects_exec(schema, name);
    proof {
        assert forall|v: JsonValue, rx: spec_fn(Seq<char>, Seq<char>) -> bool| r && #[trigger] accepts(*schema, v, rx) && v is Object
            implies members_have_key(v->Object_0@, name@) by {
            if guarantees_name_for_objects(*schema, name@) {
                lemma_guarantees_name_for_objects_sound(*schema, name@, v, rx);
            }
        }
    }
    r
}

/// Whether a schema accepts every object that carries property `name`:
/// `true`/`{}`, an object schema that constrains nothing beyond requiring
/// (at most) that name, a union with such a branch, an `allOf` of such
/// conjuncts, or a conditional whose present branches are such.
pub open spec fn accepts_all_with(s: SchemaNode, name: Seq<char>) -> bool
    decreases s,
{
    match s.kind {
        SchemaNodeKind::Any => true,
        SchemaNodeKind::BoolSchema(b) => b,
        SchemaNodeKind::Object { properties, pattern_properties, required, additional, property_names, property_count,
            dependent_required, enumeration } => {
            &&& forall|r: int| 0 <= r < required@.len() ==> (#[trigger] required@[r])@ == name
            &&& forall|p: int| 0 <= p < properties@.len() ==> (#[trigger] properties@[p]).0@ == name
                && trivially_universal(properties@[p].1)
            &&& pattern_properties@.len() == 0
            &&& property_count.min <= 1
            &&& property_count.max is None
            &&& dependent_required@.len() == 0
            &&& enumeration is None
            &&& trivially_universal(*additional)
            &&& trivially_universal(*property_names)
        },
        SchemaNodeKind::AnyOf(children) => exists|i: int| 0 <= i < children@.len() && accepts_all_with(#[trigger] children@[i], name),
        SchemaNodeKind::AllOf(children) => children@.len() > 0
            && forall|i: int| 0 <= i < children@.len() ==> accepts_all_with(#[trigger] children@[i], name),
        SchemaNodeKind::IfThenElse { then_schema, else_schema, .. } => match (then_schema, else_schema) {
            (Some(t), Some(e)) => accepts_all_with(*t, name) && accepts_all_with(*e, name),
            (Some(t), None) => accepts_all_with(*t, name),
            (None, Some(e)) => accepts_all_with(*e, name),
            (None, None) => true,
        },
        _ => false,
    }
}

/// Law: such a schema accepts every object carrying the name.
pub proof fn lemma_accepts_all_with_sound(s: SchemaNode, name: Seq<char>, members: Vec<(String, JsonValue)>, rx: spec_fn(Seq<char>, Seq<char>) -> bool)
    requires
        accepts_all_with(s, name),
        members_have_key(members@, name),
    ensures
        accepts(s, JsonValue::Object(members), rx),
    decreases s,
{
    let v = JsonValue::Object(members);
    match s.kind {
        SchemaNodeKind::Object { properties, pattern_properties, required, additional, property_names, property_count,
            dependent_required, enumeration } => {
            assert forall|i: int, j: int| 0 <= i < members@.len() && 0 <= j < properties@.len()
                && (#[trigger] members@[i]).0@ == (#[trigger] properties@[j]).0@
                implies accepts(properties@[j].1, members@[i].1, rx) by {
                lemma_trivially_universal_accepts(properties@[j].1, members@[i].1, rx);
            }
            assert forall|i: int| 0 <= i < members@.len() implies accepts(*additional, (#[trigger] members@[i]).1, rx) by {
                lemma_trivially_universal_accepts(*additional, members@[i].1, rx);
            }
            assert forall|i: int| 0 <= i < members@.len() implies accepts(*property_names, JsonValue::String((#[trigger] members@[i]).0), rx) by {
                lemma_trivially_universal_accepts(*property_names, JsonValue::String(members@[i].0), rx);
            }
            assert forall|r: int| 0 <= r < required@.len() implies members_have_key(members@, (#[trigger] required@[r])@) by {}
        },
        SchemaNodeKind::AnyOf(children) => {
            let i = choose|i: int| 0 <= i < children@.len() && accepts_all_with(#[trigger] children@[i], name);
            lemma_accepts_all_with_sound(children@[i], name, members, rx);
        },
        SchemaNodeKind::AllOf(children) => {
            assert forall|i: int| 0 <= i < children@.len() implies accepts(#[trigger] children@[i], v, rx) by {
                lemma_accepts_all_with_sound(children@[i], name, members, rx);
            }
        },
        SchemaNodeKind::IfThenElse { then_schema, else_schema, .. } => {
            match then_schema {
                Some(t) => lemma_accepts_all_with_sound(*t, name, members, rx),
                None => {},
            }
            match else_schema {
                Some(e) => lemma_accepts_all_with_sound(*e, name, members, rx),
                None => {},
            }
        },
        _ => {},
    }
}

/// Whether `schema` is known to accept every object carrying property
/// `name` (see `accepts_all_with`).
pub fn schema_accepts_all_objects_with_property(schema: &SchemaNode, name: &str) -> (r: bool)
    ensures
        r == accepts_all_with(*schema, name@),
        r ==> forall|members: Vec<(String, JsonValue)>, rx: spec_fn(Seq<char>, Seq<char>) -> bool|
            members_have_key(members@, name@) ==> #[trigger] accepts(*schema, JsonValue::Object(members), rx),
    decreases *schema,
{
    let r = match &schema.kind {
        SchemaNodeKind::Any => true,
        SchemaNodeKind::BoolSchema(b) => *b,
        SchemaNodeKind::Object { properties, pattern_properties, required, additional, property_names, property_count,
            dependent_required, enumeration } => {
            let basic = pattern_properties.len() == 0 && property_count.min <= 1 && property_count.max.is_none()
                && dependent_required.len() == 0 && enumeration.is_none() && schema_is_trivially_universal(additional)
                && schema_is_trivially_universal(property_names);
            let mut required_ok = true;
            let mut i: usize = 0;
            while i < required.len() && required_ok
                invariant
                    i <= required@.len(),
                    required_ok == forall|k: int| 0 <= k < i ==> (#[trigger] required@[k])@ == name@,
                decreases required@.len() - i,
            {
                if !crate::json::str_eq(required[i].as_str(), name) {
                    required_ok = false;
                }
                i = i + 1;
            }
            let mut properties_ok = true;
            let mut p: usize = 0;
            while p < properties.len() && properties_ok
                invariant
                    p <= properties@.len(),
                    properties_ok == forall|k: int| 0 <= k < p ==> (#[trigger] properties@[k]).0@ == name@
                        && trivially_universal(properties@[k].1),
                decreases properties@.len() - p,
            {
                if !crate::json::str_eq(properties[p].0.as_str(), name) || !schema_is_trivially_universal(&properties[p].1) {
                    properties_ok = false;
                }
                p = p + 1;
            }
            proof {
                assert(schema.kind->required == *required);
                assert(schema.kind->properties == *properties);
            }
            basic && required_ok && properties_ok
        },
        SchemaNodeKind::AnyOf(children) => {
            let mut found = false;
            let mut i: usize = 0;
            while i < children.len() && !found
                invariant
                    i <= children@.len(),
                    schema.kind == SchemaNodeKind::AnyOf(*children),
                    found ==> accepts_all_with(*schema, name@),
                    !found ==> forall|k: int| 0 <= k < i ==> !accepts_all_with(#[trigger] children@[k], name@),
                decreases children@.len() - i,
            {
                proof {
                    assert(decreases_to!(*schema => schema.kind));
                    assert(decreases_to!(schema.kind => schema.kind->AnyOf_0));
                    assert(decreases_to!(*children => children[i as int]));
                }
                if schema_accepts_all_objects_with_property(&children[i], name) {
                    assert(schema.kind->AnyOf_0 == *children);
                    found = true;
                }
                i = i + 1;
            }
            found
        },
        SchemaNodeKind::AllOf(children) => {
            let mut ok = children.len() > 0;
            let mut i: usize = 0;
            while i < children.len() && ok
                invariant
                    i <= children@.len(),
                    schema.kind == SchemaNodeKind::AllOf(*children),
                    ok ==> children@.len() > 0 && forall|k: int| 0 <= k < i ==> accepts_all_with(#[trigger] children@[k], name@),
                    !ok ==> !accepts_all_with(*schema, name@),
                decreases children@.len() - i,
            {
                proof {
                    assert(decreases_to!(*schema => schema.kind));
                    assert(decreases_to!(schema.kind => schema.kind->AllOf_0));
                    assert(decreases_to!(*children => children[i as int]));
                }
                if !schema_accepts_all_objects_with_property(&children[i], name) {
                    assert(schema.kind->AllOf_0 == *children);
                    ok = false;
                }
                i = i + 1;
            }
            ok
        },
        SchemaNodeKind::IfThenElse { then_schema, else_schema, .. } => match (then_schema, else_schema) {
            (Some(t), Some(e)) => schema_accepts_all_objects_with_property(t, name)
                && schema_accepts_all_objects_with_property(e, name),
            (Some(t), None) => schema_accepts_all_objects_with_property(t, name),
            (None, Some(e)) => schema_accepts_all_objects_with_property(e, name),
            (None, None) => true,
        },
        _ => false,
    };
    proof {
        assert forall|members: Vec<(String, JsonValue)>, rx: spec_fn(Seq<char>, Seq<char>) -> bool|
            r && members_have_key(members@, name@) implies #[trigger] accepts(*schema, JsonValue::Object(members), rx) by {
            lemma_accepts_all_with_sound(*schema, name@, members, rx);
        }
    }
    r
}

/// Law: a name the schema guarantees, by the general test or the
/// object-scoped one, is a member of every object the schema accepts; by the
/// general test, every value it accepts is such an object.
pub proof fn lemma_guaranteed_name_member(s: SchemaNode, name: Seq<char>, v: JsonValue, rx: spec_fn(Seq<char>, Seq<char>) -> bool)
    requires
        schema_guarantees_name(s, name) || (guarantees_name_for_objects(s, name) && v is Object),
        accepts(s, v, rx),
    ensures
        v is Object,
        members_have_key(v->Object_0@, name),
{
    if guaranteed_names(s).contains(name) {
        lemma_guaranteed_name_object(s, name, v, rx);
    } else if guarantees_name(s, name) {
        lemma_guarantees_name_sound(s, name, v, rx);
    } else {
        lemma_guarantees_name_for_objects_sound(s, name, v, rx);
    }
}

} // verus!
