//! Copies of JSON values: a copy has the same shape, member order, names,
//! strings and numbers as the original, so it is equal to whatever the
//! original is equal to.

use vstd::prelude::*;
use crate::json::{JsonValue, json_eq, members_have_key};

verus! {

/// Whether `b` is a copy of `a`: the same shape, the same numbers, strings
/// and member names, and copies of the items and member values, in order.
pub open spec fn json_same(a: JsonValue, b: JsonValue) -> bool
    decreases a,
{
    match a {
        JsonValue::Null => b is Null,
        JsonValue::Bool(x) => b matches JsonValue::Bool(y) && x == y,
        JsonValue::Number(x) => b matches JsonValue::Number(y) && x == y,
        JsonValue::String(x) => b matches JsonValue::String(y) && x@ == y@,
        JsonValue::Array(xs) => b matches JsonValue::Array(ys) && xs@.len() == ys@.len()
            && forall|i: int| 0 <= i < xs@.len() ==> json_same(#[trigger] xs@[i], ys@[i]),
        JsonValue::Object(xs) => b matches JsonValue::Object(ys) && xs@.len() == ys@.len()
            && forall|i: int| 0 <= i < xs@.len() ==> (#[trigger] xs@[i]).0@ == ys@[i].0@ && json_same(xs@[i].1, ys@[i].1),
    }
}

/// A copy of `v`.
pub fn copy_json_value(v: &JsonValue) -> (r: JsonValue)
    ensures
        json_same(*v, r),
    decreases *v,
{
    match v {
        JsonValue::Null => JsonValue::Null,
        JsonValue::Bool(b) => JsonValue::Bool(*b),
        JsonValue::Number(n) => JsonValue::Number(*n),
        JsonValue::String(s) => JsonValue::String(s.clone()),
        JsonValue::Array(xs) => {
            let mut ys: Vec<JsonValue> = Vec::new();
            let mut i: usize = 0;
            while i < xs.len()
                invariant
                    i <= xs@.len(),
                    *v == JsonValue::Array(*xs),
                    ys@.len() == i,
                    forall|k: int| 0 <= k < i ==> json_same(#[trigger] xs@[k], ys@[k]),
                decreases xs@.len() - i,
            {
                proof {
                    assert(decreases_to!(*v => (*v)->Array_0));
                    assert(decreases_to!((*v)->Array_0 => xs[i as int]));
                }
                let c = copy_json_value(&xs[i]);
                ys.push(c);
                i = i + 1;
            }
            JsonValue::Array(ys)
        },
        JsonValue::Object(xs) => {
            let mut ys: Vec<(String, JsonValue)> = Vec::new();
            let mut i: usize = 0;
            while i < xs.len()
                invariant
                    i <= xs@.len(),
                    *v == JsonValue::Object(*xs),
                    ys@.len() == i,
                    forall|k: int| 0 <= k < i ==> (#[trigger] xs@[k]).0@ == ys@[k].0@ && json_same(xs@[k].1, ys@[k].1),
                decreases xs@.len() - i,
            {
                proof {
                    assert(decreases_to!(*v => (*v)->Object_0));
                    assert(decreases_to!((*v)->Object_0 => xs[i as int]));
                    assert(decreases_to!(xs[i as int] => xs[i as int].1));
                }
                let c = copy_json_value(&xs[i].1);
                ys.push((xs[i].0.clone(), c));
                i = i + 1;
            }
            JsonValue::Object(ys)
        },
    }
}

/// Law: a value equal to the original is equal to its copy.
pub proof fn lemma_json_eq_copy(w: JsonValue, a: JsonValue, b: JsonValue)
    requires
        json_eq(w, a),
        json_same(a, b),
    ensures
        json_eq(w, b),
    decreases w,
{
    match w {
        JsonValue::Array(ws) => {
            let xs = a->Array_0;
            let ys = b->Array_0;
            assert forall|i: int| 0 <= i < ws@.len() implies json_eq(#[trigger] ws@[i], ys@[i]) by {
                assert(json_eq(ws@[i], xs@[i]));
                assert(json_same(xs@[i], ys@[i]));
                lemma_json_eq_copy(ws@[i], xs@[i], ys@[i]);
            }
        },
        JsonValue::Object(ws) => {
            let xs = a->Object_0;
            let ys = b->Object_0;
            assert forall|i: int| 0 <= i < ws@.len() implies members_have_key(ys@, (#[trigger] ws@[i]).0@) by {
                assert(members_have_key(xs@, ws@[i].0@));
                let j = choose|j: int| 0 <= j < xs@.len() && (#[trigger] xs@[j]).0@ == ws@[i].0@;
                assert(ys@[j].0@ == xs@[j].0@);
            }
            assert forall|j: int| 0 <= j < ys@.len() implies members_have_key(ws@, (#[trigger] ys@[j]).0@) by {
                assert(xs@[j].0@ == ys@[j].0@);
                assert(members_have_key(ws@, xs@[j].0@));
            }
            assert forall|i: int, j: int| 0 <= i < ws@.len() && 0 <= j < ys@.len()
                && (#[trigger] ws@[i]).0@ == (#[trigger] ys@[j]).0@ implies json_eq(ws@[i].1, ys@[j].1) by {
                assert(xs@[j].0@ == ys@[j].0@);
                assert(json_eq(ws@[i].1, xs@[j].1));
                assert(json_same(xs@[j].1, ys@[j].1));
                lemma_json_eq_copy(ws@[i].1, xs@[j].1, ys@[j].1);
            }
        },
        _ => {},
    }
}

} // verus!
