//! Property names an object is forced to carry: names it must have, closed
//! under `dependentRequired` rules (a present trigger name forces its
//! dependency names).
//!
//! Name sets are held as vectors without repeated names.

use vstd::prelude::*;
use crate::json::{JsonValue, members_have_key, str_eq};
use crate::schema::CountRange;

verus! {

/// The names a list of strings holds.
pub open spec fn name_set(names: Seq<String>) -> Set<Seq<char>> {
    Set::new(|n: Seq<char>| exists|i: int| 0 <= i < names.len() && (#[trigger] names[i])@ == n)
}

/// Pushing a name adds it to the set.
pub proof fn lemma_name_set_push(v: Seq<String>, x: String)
    ensures
        name_set(v.push(x)) == name_set(v).insert(x@),
{
    assert forall|n: Seq<char>| name_set(v.push(x)).contains(n) <==> name_set(v).insert(x@).contains(n) by {
        if name_set(v.push(x)).contains(n) {
            let i = choose|i: int| 0 <= i < v.push(x).len() && (#[trigger] v.push(x)[i])@ == n;
            if i < v.len() {
                assert(v.push(x)[i] == v[i]);
            }
        }
        if name_set(v).contains(n) {
            let i = choose|i: int| 0 <= i < v.len() && (#[trigger] v[i])@ == n;
            assert(v.push(x)[i] == v[i]);
        }
        if n == x@ {
            assert(v.push(x)[v.len() as int] == x);
        }
    }
    assert(name_set(v.push(x)) =~= name_set(v).insert(x@));
}

/// One more element of a prefix adds its name.
pub proof fn lemma_name_set_take(v: Seq<String>, m: int)
    requires
        0 <= m < v.len(),
    ensures
        name_set(v.take(m + 1)) == name_set(v.take(m)).insert(v[m]@),
        name_set(v.take(v.len() as int)) == name_set(v),
{
    assert(v.take(m + 1) =~= v.take(m).push(v[m]));
    lemma_name_set_push(v.take(m), v[m]);
    assert(v.take(v.len() as int) =~= v);
}

/// No name occurs twice in the list.
pub open spec fn distinct_names(names: Seq<String>) -> bool {
    forall|i: int, j: int| 0 <= i < j < names.len() ==> (#[trigger] names[i])@ != (#[trigger] names[j])@
}

/// A `dependentRequired` rule as plain text: the trigger and the names it
/// forces.
pub open spec fn rule_view(rule: (String, Vec<String>)) -> (Seq<char>, Seq<Seq<char>>) {
    (rule.0@, rule.1@.map_values(|d: String| d@))
}

/// The rules a list holds, as plain text.
pub open spec fn rule_set(rules: Seq<(String, Vec<String>)>) -> Set<(Seq<char>, Seq<Seq<char>>)> {
    Set::new(|rv: (Seq<char>, Seq<Seq<char>>)| exists|r: int| 0 <= r < rules.len() && rule_view(#[trigger] rules[r]) == rv)
}

/// A set of names is closed under a set of rules when every rule whose
/// trigger is in the set has all its forced names in the set.
pub open spec fn closed_under(s: Set<Seq<char>>, rules: Set<(Seq<char>, Seq<Seq<char>>)>) -> bool {
    forall|rv: (Seq<char>, Seq<Seq<char>>), k: int| #[trigger] rules.contains(rv) && s.contains(rv.0) && 0 <= k < rv.1.len()
        ==> #[trigger] s.contains(rv.1[k])
}

/// The names forced by `seeds` under `rules`: those in every set that holds
/// the seeds and is closed under the rules (the least such set).
pub open spec fn forced_names(seeds: Set<Seq<char>>, rules: Set<(Seq<char>, Seq<Seq<char>>)>) -> Set<Seq<char>> {
    Set::new(|n: Seq<char>| forall|s: Set<Seq<char>>| #![trigger closed_under(s, rules), s.contains(n)]
        seeds.subset_of(s) && closed_under(s, rules) ==> s.contains(n))
}

/// The names an object's members carry.
pub open spec fn member_names(members: Seq<(String, JsonValue)>) -> Set<Seq<char>> {
    Set::new(|n: Seq<char>| members_have_key(members, n))
}

/// Law: an object that carries every seed name and satisfies every rule
/// carries every forced name.
pub proof fn lemma_forced_names_present(members: Seq<(String, JsonValue)>, seeds: Set<Seq<char>>, rules: Set<(Seq<char>, Seq<Seq<char>>)>)
    requires
        seeds.subset_of(member_names(members)),
        closed_under(member_names(members), rules),
    ensures
        forced_names(seeds, rules).subset_of(member_names(members)),
{
    assert forall|n: Seq<char>| #[trigger] forced_names(seeds, rules).contains(n) implies member_names(members).contains(n) by {
        assert(closed_under(member_names(members), rules));
    }
}

/// A forced trigger forces each of its rule's names.
proof fn lemma_forced_step(seeds: Set<Seq<char>>, rules: Set<(Seq<char>, Seq<Seq<char>>)>, rv: (Seq<char>, Seq<Seq<char>>), k: int)
    requires
        rules.contains(rv),
        forced_names(seeds, rules).contains(rv.0),
        0 <= k < rv.1.len(),
    ensures
        forced_names(seeds, rules).contains(rv.1[k]),
{
    assert forall|s: Set<Seq<char>>| seeds.subset_of(s) && #[trigger] closed_under(s, rules) implies #[trigger] s.contains(rv.1[k]) by {
        assert(s.contains(rv.0));
    }
}

/// Whether the list holds `name`.
pub fn names_contain(names: &Vec<String>, name: &str) -> (r: bool)
    ensures
        r == name_set(names@).contains(name@),
{
    let mut i: usize = 0;
    while i < names.len()
        invariant
            i <= names@.len(),
            forall|k: int| 0 <= k < i ==> (#[trigger] names@[k])@ != name@,
        decreases names@.len() - i,
    {
        if str_eq(names[i].as_str(), name) {
            assert(names@[i as int]@ == name@);
            return true;
        }
        i = i + 1;
    }
    false
}

/// Adds `name` unless the list already holds it.
pub(crate) fn insert_name(names: &mut Vec<String>, name: &str) -> (added: bool)
    requires
        distinct_names(old(names)@),
    ensures
        distinct_names(final(names)@),
        name_set(final(names)@) == name_set(old(names)@).insert(name@),
        added == !name_set(old(names)@).contains(name@),
{
    if names_contain(names, name) {
        assert(name_set(names@).insert(name@) =~= name_set(names@));
        false
    } else {
        let ghost before = names@;
        names.push(name.to_owned());
        proof {
            assert forall|n: Seq<char>| name_set(names@).contains(n) <==> name_set(before).insert(name@).contains(n) by {
                if name_set(before).contains(n) {
                    let i = choose|i: int| 0 <= i < before.len() && (#[trigger] before[i])@ == n;
                    assert(names@[i] == before[i]);
                }
                if name_set(names@).contains(n) {
                    let i = choose|i: int| 0 <= i < names@.len() && (#[trigger] names@[i])@ == n;
                    if i < before.len() {
                        assert(names@[i] == before[i]);
                    }
                }
                if n == name@ {
                    assert(names@[before.len() as int]@ == name@);
                }
            }
            assert(name_set(names@) =~= name_set(before).insert(name@));
            assert forall|i: int, j: int| 0 <= i < j < names@.len() implies (#[trigger] names@[i])@ != (#[trigger] names@[j])@ by {
                if j == before.len() {
                    assert(names@[i] == before[i]);
                } else {
                    assert(names@[i] == before[i]);
                    assert(names@[j] == before[j]);
                }
            }
        }
        true
    }
}

/// A rule has fired in a set when its trigger and all its names are in it.
pub open spec fn rule_fired(rule: (String, Vec<String>), s: Set<Seq<char>>) -> bool {
    s.contains(rule.0@) && forall|k: int| 0 <= k < rule.1@.len() ==> s.contains((#[trigger] rule.1@[k])@)
}

/// A rule is satisfied by a set when a trigger in it brings all its names.
pub open spec fn rule_satisfied(rule: (String, Vec<String>), s: Set<Seq<char>>) -> bool {
    s.contains(rule.0@) ==> forall|k: int| 0 <= k < rule.1@.len() ==> s.contains((#[trigger] rule.1@[k])@)
}

/// How many of the rules have fired in a set.
pub open spec fn fired_count(rules: Seq<(String, Vec<String>)>, s: Set<Seq<char>>) -> nat
    decreases rules.len(),
{
    if rules.len() == 0 {
        0
    } else {
        fired_count(rules.drop_last(), s) + if rule_fired(rules.last(), s) { 1nat } else { 0nat }
    }
}

/// A rule that has fired stays fired as the set grows.
proof fn lemma_rule_fired_mono(rule: (String, Vec<String>), s: Set<Seq<char>>, t: Set<Seq<char>>)
    requires
        rule_fired(rule, s),
        s.subset_of(t),
    ensures
        rule_fired(rule, t),
{
    assert forall|k: int| 0 <= k < rule.1@.len() implies t.contains((#[trigger] rule.1@[k])@) by {
        assert(s.contains(rule.1@[k]@));
    }
}

/// The fired count is at most the number of rules, grows with the set, and
/// grows strictly when a rule fires anew.
proof fn lemma_fired_count(rules: Seq<(String, Vec<String>)>, s: Set<Seq<char>>, t: Set<Seq<char>>, w: int)
    requires
        s.subset_of(t),
    ensures
        fired_count(rules, t) <= rules.len(),
        fired_count(rules, s) <= fired_count(rules, t),
        0 <= w < rules.len() && !rule_fired(rules[w], s) && rule_fired(rules[w], t) ==> fired_count(rules, s) < fired_count(rules, t),
    decreases rules.len(),
{
    if rules.len() > 0 {
        let init = rules.drop_last();
        lemma_fired_count(init, s, t, w);
        if rule_fired(rules.last(), s) {
            lemma_rule_fired_mono(rules.last(), s, t);
        }
        if 0 <= w < rules.len() - 1 {
            assert(init[w] == rules[w]);
        }
    }
}

/// Closes the list under the rules: afterwards it holds exactly the names
/// forced by what it held before.
pub(crate) fn close_names(names: &mut Vec<String>, rules: &Vec<(String, Vec<String>)>)
    requires
        distinct_names(old(names)@),
    ensures
        distinct_names(final(names)@),
        name_set(final(names)@) == forced_names(name_set(old(names)@), rule_set(rules@)),
{
    let ghost seeds = name_set(names@);
    let ghost rs = rule_set(rules@);
    let mut changed = true;
    proof {
        assert forall|n: Seq<char>| #[trigger] seeds.contains(n) implies forced_names(seeds, rs).contains(n) by {
            assert forall|s: Set<Seq<char>>| seeds.subset_of(s) && #[trigger] closed_under(s, rs) implies #[trigger] s.contains(n) by {}
        }
        lemma_fired_count(rules@, seeds, seeds, 0);
    }
    while changed
        invariant
            distinct_names(names@),
            rs == rule_set(rules@),
            seeds.subset_of(name_set(names@)),
            name_set(names@).subset_of(forced_names(seeds, rs)),
            !changed ==> closed_under(name_set(names@), rs),
            fired_count(rules@, name_set(names@)) <= rules@.len(),
        decreases 2 * (rules@.len() - fired_count(rules@, name_set(names@))) + if changed { 1int } else { 0int },
    {
        let ghost start = name_set(names@);
        let ghost mut witness: int = 0;
        changed = false;
        let mut r: usize = 0;
        while r < rules.len()
            invariant
                r <= rules@.len(),
                distinct_names(names@),
                rs == rule_set(rules@),
                seeds.subset_of(name_set(names@)),
                name_set(names@).subset_of(forced_names(seeds, rs)),
                start.subset_of(name_set(names@)),
                !changed ==> name_set(names@) == start,
                !changed ==> forall|q: int| 0 <= q < r ==> rule_satisfied(#[trigger] rules@[q], start),
                changed ==> 0 <= witness < rules@.len() && !rule_fired(rules@[witness], start)
                    && rule_fired(rules@[witness], name_set(names@)),
            decreases rules@.len() - r,
        {
            let ghost at_rule = name_set(names@);
            let mut added_here = false;
            if names_contain(names, rules[r].0.as_str()) {
                let mut k: usize = 0;
                while k < rules[r].1.len()
                    invariant
                        r < rules@.len(),
                        k <= rules@[r as int].1@.len(),
                        distinct_names(names@),
                        rs == rule_set(rules@),
                        seeds.subset_of(name_set(names@)),
                        name_set(names@).subset_of(forced_names(seeds, rs)),
                        start.subset_of(at_rule),
                        at_rule.subset_of(name_set(names@)),
                        name_set(names@).contains(rules@[r as int].0@),
                        forall|m: int| 0 <= m < k ==> name_set(names@).contains((#[trigger] rules@[r as int].1@[m])@),
                        !added_here ==> name_set(names@) == at_rule,
                        added_here ==> !rule_fired(rules@[r as int], start),
                        changed ==> 0 <= witness < rules@.len() && !rule_fired(rules@[witness], start)
                            && rule_fired(rules@[witness], name_set(names@)),
                    decreases rules@[r as int].1@.len() - k,
                {
                    let ghost before = name_set(names@);
                    let rule = &rules[r];
                    proof {
                        let rv = rule_view(rules@[r as int]);
                        assert(rs.contains(rv));
                        assert(rv.1[k as int] == rules@[r as int].1@[k as int]@);
                        lemma_forced_step(seeds, rs, rv, k as int);
                    }
                    let added = insert_name(names, rule.1[k].as_str());
                    if added {
                        added_here = true;
                    }
                    proof {
                        if changed {
                            lemma_rule_fired_mono(rules@[witness], before, name_set(names@));
                        }
                    }
                    k = k + 1;
                }
                proof {
                    assert(rule_fired(rules@[r as int], name_set(names@)));
                }
            }
            proof {
                if added_here {
                    witness = r as int;
                }
            }
            if added_here {
                changed = true;
            }
            r = r + 1;
        }
        proof {
            lemma_fired_count(rules@, start, name_set(names@), witness);
            if !changed {
                assert forall|rv: (Seq<char>, Seq<Seq<char>>), k: int| #[trigger] rs.contains(rv) && name_set(names@).contains(rv.0)
                    && 0 <= k < rv.1.len() implies #[trigger] name_set(names@).contains(rv.1[k]) by {
                    let q = choose|q: int| 0 <= q < rules@.len() && rule_view(#[trigger] rules@[q]) == rv;
                    assert(rule_satisfied(rules@[q], start));
                    assert(rv.1[k] == rules@[q].1@[k]@);
                }
            }
        }
    }
    proof {
        assert forall|n: Seq<char>| #[trigger] forced_names(seeds, rs).contains(n) implies name_set(names@).contains(n) by {
            assert(closed_under(name_set(names@), rs));
        }
        assert(name_set(names@) =~= forced_names(seeds, rs));
    }
}

/// The names forced by `required` under the `dependentRequired` rules.
pub fn names_forced_by_required(required: &Vec<String>, dependent_required: &Vec<(String, Vec<String>)>) -> (r: Vec<String>)
    ensures
        distinct_names(r@),
        name_set(r@) == forced_names(name_set(required@), rule_set(dependent_required@)),
{
    let mut forced: Vec<String> = Vec::new();
    let mut i: usize = 0;
    while i < required.len()
        invariant
            i <= required@.len(),
            distinct_names(forced@),
            name_set(forced@) == name_set(required@.take(i as int)),
        decreases required@.len() - i,
    {
        insert_name(&mut forced, required[i].as_str());
        proof {
            assert(name_set(required@.take(i + 1)) =~= name_set(required@.take(i as int)).insert(required@[i as int]@)) by {
                assert forall|n: Seq<char>| name_set(required@.take(i + 1)).contains(n)
                    <==> name_set(required@.take(i as int)).insert(required@[i as int]@).contains(n) by {
                    if name_set(required@.take(i + 1)).contains(n) {
                        let j = choose|j: int| 0 <= j < i + 1 && (#[trigger] required@.take(i + 1)[j])@ == n;
                        if j < i {
                            assert(required@.take(i as int)[j] == required@.take(i + 1)[j]);
                        }
                    }
                    if name_set(required@.take(i as int)).contains(n) {
                        let j = choose|j: int| 0 <= j < i && (#[trigger] required@.take(i as int)[j])@ == n;
                        assert(required@.take(i + 1)[j] == required@.take(i as int)[j]);
                    }
                    if n == required@[i as int]@ {
                        assert(required@.take(i + 1)[i as int] == required@[i as int]);
                    }
                }
            }
        }
        i = i + 1;
    }
    assert(required@.take(required@.len() as int) =~= required@);
    close_names(&mut forced, dependent_required);
    forced
}

/// The names forced by `required` together with `property_name`.
pub fn names_forced_by_required_and_property(required: &Vec<String>, property_name: &str, dependent_required: &Vec<(String, Vec<String>)>) -> (r: Vec<String>)
    ensures
        distinct_names(r@),
        name_set(r@) == forced_names(name_set(required@).insert(property_name@), rule_set(dependent_required@)),
{
    let mut seeds: Vec<String> = Vec::new();
    let mut i: usize = 0;
    while i < required.len()
        invariant
            i <= required@.len(),
            seeds@ == required@.take(i as int),
        decreases required@.len() - i,
    {
        seeds.push(required[i].clone());
        assert(seeds@ =~= required@.take(i + 1));
        i = i + 1;
    }
    seeds.push(property_name.to_owned());
    proof {
        assert(required@.take(required@.len() as int) =~= required@);
        assert forall|n: Seq<char>| name_set(seeds@).contains(n) <==> name_set(required@).insert(property_name@).contains(n) by {
            if name_set(seeds@).contains(n) {
                let j = choose|j: int| 0 <= j < seeds@.len() && (#[trigger] seeds@[j])@ == n;
                if j < required@.len() {
                    assert(seeds@[j] == required@[j]);
                }
            }
            if name_set(required@).contains(n) {
                let j = choose|j: int| 0 <= j < required@.len() && (#[trigger] required@[j])@ == n;
                assert(seeds@[j] == required@[j]);
            }
            if n == property_name@ {
                assert(seeds@[required@.len() as int]@ == property_name@);
            }
        }
        assert(name_set(seeds@) =~= name_set(required@).insert(property_name@));
    }
    names_forced_by_required(&seeds, dependent_required)
}

/// Whether an object that carries `trigger` (and the `required` names, and
/// satisfies the rules) must carry `dependency`: it is the trigger itself,
/// a required name, or forced by the trigger.
pub fn dependent_requirement_is_guaranteed(trigger: &str, dependency: &str, required: &Vec<String>, dependent_required: &Vec<(String, Vec<String>)>) -> (r: bool)
    ensures
        r == (dependency@ == trigger@ || name_set(required@).contains(dependency@)
            || forced_names(Set::empty().insert(trigger@), rule_set(dependent_required@)).contains(dependency@)),
        r ==> forall|members: Seq<(String, JsonValue)>| #![trigger member_names(members)]
            name_set(required@).subset_of(member_names(members)) && members_have_key(members, trigger@)
            && closed_under(member_names(members), rule_set(dependent_required@)) ==> members_have_key(members, dependency@),
{
    let r = if str_eq(dependency, trigger) || names_contain(required, dependency) {
        true
    } else {
        let mut reached: Vec<String> = Vec::new();
        reached.push(trigger.to_owned());
        proof {
            assert(name_set(reached@) =~= Set::empty().insert(trigger@)) by {
                assert(reached@[0]@ == trigger@);
            }
        }
        close_names(&mut reached, dependent_required);
        names_contain(&reached, dependency)
    };
    proof {
        assert forall|members: Seq<(String, JsonValue)>| #![trigger member_names(members)]
            r && name_set(required@).subset_of(member_names(members)) && members_have_key(members, trigger@)
            && closed_under(member_names(members), rule_set(dependent_required@)) implies members_have_key(members, dependency@) by {
            assert(member_names(members).contains(trigger@));
            lemma_forced_names_present(members, Set::empty().insert(trigger@), rule_set(dependent_required@));
            if name_set(required@).contains(dependency@) {
                assert(member_names(members).contains(dependency@));
            }
            if forced_names(Set::empty().insert(trigger@), rule_set(dependent_required@)).contains(dependency@) {
                assert(member_names(members).contains(dependency@));
            }
        }
    }
    r
}

/// Whether an object holding the (distinct) `required` names within
/// `property_count` can also hold `property_name`: it is itself required,
/// or `maxProperties` leaves room beyond the required names.
pub fn property_name_can_fit_count(property_name: &str, required: &Vec<String>, property_count: CountRange<usize>) -> (r: bool)
    ensures
        r == (name_set(required@).contains(property_name@)
            || (property_count.max matches Some(m) ==> required@.len() < m)),
{
    names_contain(required, property_name) || match property_count.max {
        None => true,
        Some(max_properties) => required.len() < max_properties,
    }
}

/// The property-count range once the (distinct) `forced_names` must be
/// present: `minProperties` raised to their number; `None` when that
/// passes `maxProperties`.
pub fn effective_property_count_with_forced_names(property_count: CountRange<usize>, forced_names: &Vec<String>) -> (r: Option<CountRange<usize>>)
    ensures
        ({
            let lower = if property_count.min >= forced_names@.len() { property_count.min as int } else { forced_names@.len() as int };
            r == (if property_count.max matches Some(m) && m < lower {
                None
            } else {
                Some(CountRange { min: lower as usize, max: property_count.max })
            })
        }),
{
    let lower = if property_count.min >= forced_names.len() { property_count.min } else { forced_names.len() };
    CountRange::<usize>::new(lower, property_count.max)
}

/// A list without repeated names has as many names as entries.
pub proof fn lemma_distinct_name_set_len(names: Seq<String>)
    requires
        distinct_names(names),
    ensures
        name_set(names).finite(),
        name_set(names).len() == names.len(),
    decreases names.len(),
{
    if names.len() == 0 {
        assert(name_set(names) =~= Set::empty());
    } else {
        let init = names.drop_last();
        let last = names.last();
        assert(names =~= init.push(last));
        assert(distinct_names(init)) by {
            assert forall|i: int, j: int| 0 <= i < j < init.len() implies (#[trigger] init[i])@ != (#[trigger] init[j])@ by {
                assert(init[i] == names[i] && init[j] == names[j]);
            }
        }
        lemma_distinct_name_set_len(init);
        lemma_name_set_push(init, last);
        assert(!name_set(init).contains(last@)) by {
            if name_set(init).contains(last@) {
                let i = choose|i: int| 0 <= i < init.len() && (#[trigger] init[i])@ == last@;
                assert(names[i] == init[i]);
                assert(names[names.len() - 1] == last);
            }
        }
    }
}

/// An object has no more distinct member names than members.
pub proof fn lemma_member_names_len(members: Seq<(String, JsonValue)>)
    ensures
        member_names(members).finite(),
        member_names(members).len() <= members.len(),
    decreases members.len(),
{
    if members.len() == 0 {
        assert(member_names(members) =~= Set::empty());
    } else {
        let init = members.drop_last();
        let last = members.last();
        lemma_member_names_len(init);
        assert(member_names(members) =~= member_names(init).insert(last.0@)) by {
            assert forall|n: Seq<char>| member_names(members).contains(n) <==> member_names(init).insert(last.0@).contains(n) by {
                if member_names(members).contains(n) {
                    let i = choose|i: int| 0 <= i < members.len() && (#[trigger] members[i]).0@ == n;
                    if i < init.len() {
                        assert(init[i] == members[i]);
                    }
                }
                if member_names(init).contains(n) {
                    let i = choose|i: int| 0 <= i < init.len() && (#[trigger] init[i]).0@ == n;
                    assert(members[i] == init[i]);
                }
                if n == last.0@ {
                    assert(members[members.len() - 1] == last);
                }
            }
        }
    }
}

/// What `property_name_can_fit_with_dependencies` decides: the name fits
/// the count beside the required names, and under `maxProperties` the
/// required names fit, and so do the names forced by the required names
/// together with `property_name` (when it is not itself required).
pub open spec fn fits_with_dependencies(property_name: Seq<char>, required: Seq<String>, property_count: CountRange<usize>,
    dependent_required: Seq<(String, Vec<String>)>) -> bool {
    &&& name_set(required).contains(property_name) || (property_count.max matches Some(m) ==> required.len() < m)
    &&& property_count.max matches Some(m) ==> {
        &&& required.len() <= m
        &&& name_set(required).contains(property_name)
            || forced_names(name_set(required).insert(property_name), rule_set(dependent_required)).len() <= m
    }
}

/// Whether an object holding the (distinct) `required` names within
/// `property_count` can also hold `property_name` together with every name
/// the `dependentRequired` rules then force.
pub fn property_name_can_fit_with_dependencies(property_name: &str, required: &Vec<String>, property_count: CountRange<usize>,
    dependent_required: &Vec<(String, Vec<String>)>) -> (r: bool)
    ensures
        r == fits_with_dependencies(property_name@, required@, property_count, dependent_required@),
{
    if !property_name_can_fit_count(property_name, required, property_count) {
        return false;
    }
    let max_properties = match property_count.max {
        Some(m) => m,
        None => return true,
    };
    if required.len() > max_properties {
        return false;
    }
    if names_contain(required, property_name) {
        return true;
    }
    let forced = names_forced_by_required_and_property(required, property_name, dependent_required);
    proof {
        lemma_distinct_name_set_len(forced@);
    }
    forced.len() <= max_properties
}

/// Law: the check never rules out an object that exists. An object that
/// carries the (distinct) required names and
/// `property_name`, satisfies the `dependentRequired` rules and has no more
/// members than `maxProperties` passes it.
pub proof fn lemma_fits_with_dependencies_necessary(property_name: Seq<char>, required: Seq<String>,
    property_count: CountRange<usize>, dependent_required: Seq<(String, Vec<String>)>, members: Seq<(String, JsonValue)>)
    requires
        distinct_names(required),
        name_set(required).subset_of(member_names(members)),
        members_have_key(members, property_name),
        closed_under(member_names(members), rule_set(dependent_required)),
        property_count.max matches Some(m) ==> members.len() <= m,
    ensures
        fits_with_dependencies(property_name, required, property_count, dependent_required),
{
    lemma_member_names_len(members);
    lemma_distinct_name_set_len(required);
    let seeds = name_set(required).insert(property_name);
    assert(member_names(members).contains(property_name));
    lemma_forced_names_present(members, seeds, rule_set(dependent_required));
    let forced = forced_names(seeds, rule_set(dependent_required));
    vstd::set_lib::lemma_len_subset(name_set(required), member_names(members));
    if property_count.max is Some {
        let m = property_count.max->0;
        vstd::set_lib::lemma_len_subset(forced, member_names(members));
        if !name_set(required).contains(property_name) {
            assert(name_set(required).insert(property_name).subset_of(member_names(members)));
            vstd::set_lib::lemma_len_subset(name_set(required).insert(property_name), member_names(members));
            assert(name_set(required).insert(property_name).len() == name_set(required).len() + 1);
        }
    }
}

} // verus!
