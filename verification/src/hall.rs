//! Distinct JSON values and Hall's condition: positions that must hold
//! pairwise distinct values, each drawn from a finite domain of its own, can
//! be filled only when every set of positions draws on at least as many
//! distinct values as it has positions.

use vstd::prelude::*;
use vstd::set_lib::{set_int_range, lemma_int_range, lemma_map_size, lemma_len_subset};
use crate::json::{JsonValue, json_eq, json_wf, json_values_equal, lemma_json_eq_symmetric, lemma_json_eq_transitive,
    lemma_json_eq_reflexive};

verus! {

/// Whether some listed value equals `v` (listed value first).
pub open spec fn listed_equal(items: Seq<&JsonValue>, v: JsonValue) -> bool {
    exists|k: int| 0 <= k < items.len() && json_eq(*items[k], v)
}

/// Whether no two listed values are equal (earlier value first).
pub open spec fn pairwise_unequal(items: Seq<&JsonValue>) -> bool {
    forall|i: int, j: int| 0 <= i < j < items.len() ==> !json_eq(*(#[trigger] items[i]), *(#[trigger] items[j]))
}

/// The list with `v` appended unless an equal value is already listed.
pub open spec fn with_distinct<'a>(items: Seq<&'a JsonValue>, v: &'a JsonValue) -> Seq<&'a JsonValue> {
    if listed_equal(items, *v) { items } else { items.push(v) }
}

/// Appends `value` unless a value equal to it is already listed.
pub fn push_distinct_owned<'a>(distinct: &mut Vec<&'a JsonValue>, value: &'a JsonValue)
    ensures
        final(distinct)@ == with_distinct(old(distinct)@, value),
{
    let mut k: usize = 0;
    while k < distinct.len()
        invariant
            k <= distinct@.len(),
            distinct@ == old(distinct)@,
            forall|j: int| 0 <= j < k ==> !json_eq(*distinct@[j], *value),
        decreases distinct@.len() - k,
    {
        if json_values_equal(distinct[k], value) {
            return;
        }
        k = k + 1;
    }
    distinct.push(value);
}

/// Appending keeps a list without equal pairs so.
proof fn lemma_with_distinct_unequal<'a>(items: Seq<&'a JsonValue>, v: &'a JsonValue)
    requires
        pairwise_unequal(items),
    ensures
        pairwise_unequal(with_distinct(items, v)),
{
    if !listed_equal(items, *v) {
        let out = items.push(v);
        assert forall|i: int, j: int| 0 <= i < j < out.len() implies !json_eq(*(#[trigger] out[i]), *(#[trigger] out[j])) by {
            if j == items.len() {
                assert(out[i] == items[i]);
                assert(!json_eq(*items[i], *v));
            } else {
                assert(out[i] == items[i] && out[j] == items[j]);
            }
        }
    }
}

/// The first-occurrence representatives of the first `n` values: each
/// value is kept unless an equal one was kept before it.
pub open spec fn distinct_prefix(values: Seq<JsonValue>, n: nat) -> Seq<JsonValue>
    decreases n,
{
    if n == 0 || n > values.len() {
        Seq::empty()
    } else {
        let prev = distinct_prefix(values, (n - 1) as nat);
        if exists|k: int| 0 <= k < prev.len() && json_eq(prev[k], values[n - 1]) {
            prev
        } else {
            prev.push(values[n - 1])
        }
    }
}

/// The values as a list of references.
pub open spec fn deref_all(items: Seq<&JsonValue>) -> Seq<JsonValue> {
    Seq::new(items.len(), |i: int| *items[i])
}

/// The first-occurrence representatives of `values`, no two equal.
pub fn distinct_values(values: &Vec<JsonValue>) -> (r: Vec<&JsonValue>)
    ensures
        deref_all(r@) == distinct_prefix(values@, values@.len()),
        pairwise_unequal(r@),
        (forall|k: int| 0 <= k < values@.len() ==> json_wf(#[trigger] values@[k]))
            ==> forall|k: int| 0 <= k < values@.len() ==> listed_equal(r@, #[trigger] values@[k]),
{
    let mut distinct: Vec<&JsonValue> = Vec::new();
    let mut i: usize = 0;
    while i < values.len()
        invariant
            i <= values@.len(),
            deref_all(distinct@) == distinct_prefix(values@, i as nat),
            pairwise_unequal(distinct@),
            (forall|k: int| 0 <= k < values@.len() ==> json_wf(#[trigger] values@[k]))
                ==> forall|k: int| 0 <= k < i ==> listed_equal(distinct@, #[trigger] values@[k]),
        decreases values@.len() - i,
    {
        let ghost before = distinct@;
        proof {
            lemma_with_distinct_unequal(distinct@, &values[i as int]);
        }
        push_distinct_owned(&mut distinct, &values[i]);
        proof {
            let prev = distinct_prefix(values@, i as nat);
            assert(listed_equal(before, values@[i as int]) == exists|k: int| 0 <= k < prev.len() && json_eq(prev[k], values@[i as int])) by {
                if listed_equal(before, values@[i as int]) {
                    let k = choose|k: int| 0 <= k < before.len() && json_eq(*before[k], values@[i as int]);
                    assert(prev[k] == *before[k]);
                }
                if exists|k: int| 0 <= k < prev.len() && json_eq(prev[k], values@[i as int]) {
                    let k = choose|k: int| 0 <= k < prev.len() && json_eq(prev[k], values@[i as int]);
                    assert(prev[k] == *before[k]);
                }
            }
            assert(deref_all(distinct@) =~= distinct_prefix(values@, (i + 1) as nat));
            if forall|k: int| 0 <= k < values@.len() ==> json_wf(#[trigger] values@[k]) {
                assert forall|k: int| 0 <= k < i + 1 implies listed_equal(distinct@, #[trigger] values@[k]) by {
                    if k < i {
                        let w = choose|w: int| 0 <= w < before.len() && json_eq(*before[w], values@[k]);
                        assert(distinct@[w] == before[w]);
                    } else if !listed_equal(before, values@[k]) {
                        lemma_json_eq_reflexive(values@[k]);
                        assert(distinct@[before.len() as int] == &values@[k]);
                    } else {
                        let w = choose|w: int| 0 <= w < before.len() && json_eq(*before[w], values@[k]);
                        assert(distinct@[w] == before[w]);
                    }
                }
            }
        }
        i = i + 1;
    }
    distinct
}

/// Whether position `i` belongs to the set of positions `mask`.
pub open spec fn in_mask(mask: usize, i: int) -> bool {
    mask & (1usize << (i as usize)) != 0
}

/// The number of the first `n` positions in `mask`.
pub open spec fn mask_size(mask: usize, n: nat) -> nat
    decreases n,
{
    if n == 0 {
        0
    } else {
        mask_size(mask, (n - 1) as nat) + if in_mask(mask, n - 1) { 1nat } else { 0nat }
    }
}

/// Whether every value of the domains of the positions in `mask` equals
/// one of `reps`.
pub open spec fn covers_masked(domains: Seq<Vec<JsonValue>>, mask: usize, reps: Seq<JsonValue>) -> bool {
    forall|i: int, k: int| 0 <= i < domains.len() && in_mask(mask, i) && 0 <= k < domains[i]@.len()
        ==> represented(reps, #[trigger] domains[i]@[k])
}

/// Whether some representative equals `v` (representative first).
pub open spec fn represented(reps: Seq<JsonValue>, v: JsonValue) -> bool {
    exists|r: int| 0 <= r < reps.len() && json_eq(reps[r], v)
}

/// Whether the positions in `mask` draw on fewer distinct values than
/// there are of them: fewer representatives than positions cover their
/// domains.
pub open spec fn hall_deficient(domains: Seq<Vec<JsonValue>>, mask: usize) -> bool {
    exists|reps: Seq<JsonValue>| reps.len() < mask_size(mask, domains.len()) && #[trigger] covers_masked(domains, mask, reps)
}

/// Hall's condition fails for between two and ten positions: some set of
/// at least two of them (a mask below `2^n`) is deficient.
pub open spec fn hall_violation(domains: Seq<Vec<JsonValue>>) -> bool {
    &&& 2 <= domains.len() <= 10
    &&& exists|mask: usize| 1 <= mask < (1usize << (domains.len() as usize)) && mask_size(mask, domains.len()) >= 2
        && #[trigger] hall_deficient(domains, mask)
}

/// Every value of every domain is well formed.
pub open spec fn domains_wf(domains: Seq<Vec<JsonValue>>) -> bool {
    forall|i: int, k: int| 0 <= i < domains.len() && 0 <= k < domains[i]@.len() ==> json_wf(#[trigger] domains[i]@[k])
}

/// Whether a listed value is a value of the domain of a position in `mask`.
pub open spec fn masked_value(domains: Seq<Vec<JsonValue>>, mask: usize, v: JsonValue) -> bool {
    exists|i: int, k: int| 0 <= i < domains.len() && in_mask(mask, i) && 0 <= k < domains[i]@.len() && domains[i]@[k] == v
}

/// The number of positions below `n` in `mask`.
fn mask_slots(mask: usize, n: usize) -> (s: usize)
    requires
        n <= 10,
    ensures
        s == mask_size(mask, n as nat),
{
    let mut s: usize = 0;
    let mut index: usize = 0;
    while index < n
        invariant
            index <= n <= 10,
            s == mask_size(mask, index as nat),
            s <= index,
        decreases n - index,
    {
        if mask & (1usize << index) != 0 {
            s = s + 1;
        }
        index = index + 1;
    }
    s
}

/// Distinct values of the domains of the positions in `mask`, stopping
/// once there are `slots` of them.
fn masked_distinct_values<'a>(domains: &'a [Vec<JsonValue>], mask: usize, slots: usize) -> (u: Vec<&'a JsonValue>)
    requires
        domains@.len() <= 10,
        domains_wf(domains@),
    ensures
        pairwise_unequal(u@),
        forall|j: int| 0 <= j < u@.len() ==> masked_value(domains@, mask, *(#[trigger] u@[j])),
        u@.len() < slots ==> forall|i: int, k: int| 0 <= i < domains@.len() && in_mask(mask, i) && 0 <= k < domains@[i]@.len()
            ==> listed_equal(u@, #[trigger] domains@[i]@[k]),
{
    let mut union: Vec<&JsonValue> = Vec::new();
    let mut index: usize = 0;
    while index < domains.len()
        invariant
            index <= domains@.len() <= 10,
            domains_wf(domains@),
            pairwise_unequal(union@),
            forall|j: int| 0 <= j < union@.len() ==> masked_value(domains@, mask, *(#[trigger] union@[j])),
            union@.len() < slots ==> forall|i: int, k: int| 0 <= i < index && in_mask(mask, i) && 0 <= k < domains@[i]@.len()
                ==> listed_equal(union@, #[trigger] domains@[i]@[k]),
        ensures
            pairwise_unequal(union@),
            forall|j: int| 0 <= j < union@.len() ==> masked_value(domains@, mask, *(#[trigger] union@[j])),
            union@.len() < slots ==> forall|i: int, k: int| 0 <= i < domains@.len() && in_mask(mask, i) && 0 <= k < domains@[i]@.len()
                ==> listed_equal(union@, #[trigger] domains@[i]@[k]),
        decreases domains@.len() - index,
    {
        if mask & (1usize << index) != 0 {
            let domain = &domains[index];
            let mut k: usize = 0;
            while k < domain.len()
                invariant
                    index < domains@.len() <= 10,
                    domains_wf(domains@),
                    *domain == domains@[index as int],
                    in_mask(mask, index as int),
                    k <= domain@.len(),
                    pairwise_unequal(union@),
                    forall|j: int| 0 <= j < union@.len() ==> masked_value(domains@, mask, *(#[trigger] union@[j])),
                    union@.len() < slots ==> forall|i: int, t: int| 0 <= i < index && in_mask(mask, i) && 0 <= t < domains@[i]@.len()
                        ==> listed_equal(union@, #[trigger] domains@[i]@[t]),
                    union@.len() < slots ==> forall|t: int| 0 <= t < k ==> listed_equal(union@, #[trigger] domain@[t]),
                ensures
                    pairwise_unequal(union@),
                    forall|j: int| 0 <= j < union@.len() ==> masked_value(domains@, mask, *(#[trigger] union@[j])),
                    union@.len() < slots ==> forall|i: int, t: int| 0 <= i < index && in_mask(mask, i) && 0 <= t < domains@[i]@.len()
                        ==> listed_equal(union@, #[trigger] domains@[i]@[t]),
                    union@.len() < slots ==> forall|t: int| 0 <= t < domain@.len() ==> listed_equal(union@, #[trigger] domain@[t]),
                decreases domain@.len() - k,
            {
                let ghost before = union@;
                proof {
                    lemma_with_distinct_unequal(union@, &domain[k as int]);
                }
                push_distinct_owned(&mut union, &domain[k]);
                proof {
                    assert forall|j: int| 0 <= j < union@.len() implies masked_value(domains@, mask, *(#[trigger] union@[j])) by {
                        if j < before.len() {
                            assert(union@[j] == before[j]);
                        } else {
                            assert(domains@[index as int]@[k as int] == *union@[j]);
                        }
                    }
                    assert forall|u: int| #![trigger union@[u]] 0 <= u < before.len() implies union@[u] == before[u] by {}
                    if union@.len() < slots {
                        assert forall|i: int, t: int| 0 <= i < index && in_mask(mask, i) && 0 <= t < domains@[i]@.len()
                            implies listed_equal(union@, #[trigger] domains@[i]@[t]) by {
                            let w = choose|w: int| 0 <= w < before.len() && json_eq(*before[w], domains@[i]@[t]);
                            assert(union@[w] == before[w]);
                        }
                        assert forall|t: int| 0 <= t < k + 1 implies listed_equal(union@, #[trigger] domain@[t]) by {
                            if t < k {
                                let w = choose|w: int| 0 <= w < before.len() && json_eq(*before[w], domain@[t]);
                                assert(union@[w] == before[w]);
                            } else if !listed_equal(before, domain@[t]) {
                                assert(union@[before.len() as int] == &domain@[t]);
                                lemma_json_eq_reflexive(domain@[t]);
                            }
                        }
                    }
                }
                if union.len() >= slots {
                    break;
                }
                k = k + 1;
            }
        }
        if union.len() >= slots {
            break;
        }
        proof {
            if union@.len() < slots {
                assert forall|i: int, k: int| 0 <= i < index + 1 && in_mask(mask, i) && 0 <= k < domains@[i]@.len()
                    implies listed_equal(union@, #[trigger] domains@[i]@[k]) by {
                    if i == index {
                        assert(domains@[i]@[k] == domains@[index as int]@[k]);
                    }
                }
            }
        }
        index = index + 1;
    }
    union
}

/// Pigeonhole: pairwise unequal values of the masked domains need at
/// least as many representatives as there are of them.
proof fn lemma_no_smaller_cover(domains: Seq<Vec<JsonValue>>, mask: usize, u: Seq<&JsonValue>, reps: Seq<JsonValue>)
    requires
        pairwise_unequal(u),
        forall|j: int| 0 <= j < u.len() ==> masked_value(domains, mask, *(#[trigger] u[j])),
        covers_masked(domains, mask, reps),
    ensures
        u.len() <= reps.len(),
{
    let rep_of = |j: int| choose|r: int| 0 <= r < reps.len() && json_eq(reps[r], *u[j]);
    assert forall|j: int| 0 <= j < u.len() implies 0 <= #[trigger] rep_of(j) < reps.len() && json_eq(reps[rep_of(j)], *u[j]) by {
        let (i, k) = choose|i: int, k: int| 0 <= i < domains.len() && in_mask(mask, i) && 0 <= k < domains[i]@.len()
            && domains[i]@[k] == *u[j];
        assert(represented(reps, domains[i]@[k]));
    }
    let x = set_int_range(0, u.len() as int);
    let y = set_int_range(0, reps.len() as int);
    lemma_int_range(0, u.len() as int);
    lemma_int_range(0, reps.len() as int);
    assert(vstd::relations::injective_on(rep_of, x)) by {
        assert forall|a: int, b: int| x.contains(a) && x.contains(b) && #[trigger] rep_of(a) == #[trigger] rep_of(b) implies a == b by {
            if a != b {
                let r = rep_of(a);
                lemma_json_eq_symmetric(reps[r], *u[a]);
                lemma_json_eq_transitive(*u[a], reps[r], *u[b]);
                lemma_json_eq_symmetric(*u[a], *u[b]);
                if a < b {
                    assert(!json_eq(*u[a], *u[b]));
                } else {
                    assert(!json_eq(*u[b], *u[a]));
                }
            }
        }
    }
    let image = x.map(rep_of);
    lemma_map_size(x, image, rep_of);
    assert(image.subset_of(y));
    lemma_len_subset(image, y);
}

/// Whether Hall's condition fails for the domains of between two and ten
/// positions: some set of at least two positions draws on fewer distinct
/// values than it has positions, so the positions cannot all hold
/// distinct values. Values are compared as JSON; each domain is scanned
/// only until it shows enough distinct values.
pub fn has_hall_violation(domains: &[Vec<JsonValue>]) -> (r: bool)
    requires
        domains_wf(domains@),
    ensures
        r == hall_violation(domains@),
{
    let n = domains.len();
    if n <= 1 || n > 10 {
        return false;
    }
    let limit: usize = 1usize << n;
    assert(limit >= 4) by (bit_vector)
        requires
            limit == 1usize << n,
            2 <= n <= 10;
    let mut mask: usize = 1;
    while mask < limit
        invariant
            2 <= n <= 10,
            n == domains@.len(),
            limit == 1usize << n,
            1 <= mask <= limit,
            domains_wf(domains@),
            forall|m: usize| 1 <= m < mask && mask_size(m, n as nat) >= 2 ==> !#[trigger] hall_deficient(domains@, m),
        decreases limit - mask,
    {
        let slots = mask_slots(mask, n);
        if slots > 1 {
            let union = masked_distinct_values(domains, mask, slots);
            if union.len() < slots {
                proof {
                    let reps = deref_all(union@);
                    assert forall|i: int, k: int| 0 <= i < domains@.len() && in_mask(mask, i) && 0 <= k < domains@[i]@.len()
                        implies represented(reps, #[trigger] domains@[i]@[k]) by {
                        assert(listed_equal(union@, domains@[i]@[k]));
                        let w = choose|w: int| 0 <= w < union@.len() && json_eq(*union@[w], domains@[i]@[k]);
                        assert(reps[w] == *union@[w]);
                    }
                    assert(covers_masked(domains@, mask, reps));
                    assert(hall_deficient(domains@, mask));
                }
                return true;
            }
            proof {
                assert forall|reps: Seq<JsonValue>| reps.len() < mask_size(mask, n as nat)
                    implies !#[trigger] covers_masked(domains@, mask, reps) by {
                    if covers_masked(domains@, mask, reps) {
                        lemma_no_smaller_cover(domains@, mask, union@, reps);
                    }
                }
            }
        }
        mask = mask + 1;
    }
    false
}

} // verus!
